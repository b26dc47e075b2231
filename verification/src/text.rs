//! Text as it comes out of files and processes: raw bytes, decoded line by line.

use vstd::prelude::*;
use vstd::utf8;

verus! {

/// Calls `String::from_utf8`. Claimed of it: it succeeds on valid UTF-8 and on nothing else, and
/// gives the text that the bytes encode.
#[verifier::external_body]
pub(crate) fn decode(bytes: Vec<u8>) -> (text: Option<String>)
    ensures
        text is Some <==> utf8::valid_utf8(bytes@),
        text matches Some(t) ==> t@ == utf8::decode_utf8(bytes@),
{
    String::from_utf8(bytes).ok()
}

/// The line end byte.
pub const NEWLINE: u8 = 0x0a;

/// A line without the carriage return that it may end in.
pub open spec fn without_return(line: Seq<u8>) -> Seq<u8> {
    if line.len() > 0 && line.last() == 0x0d {
        line.drop_last()
    } else {
        line
    }
}

/// The lines of a text of which `line` has been read and `rest` has not. A line ends at a line feed,
/// which with a carriage return before it is not part of the line; what follows the last line feed
/// is a line unless it is empty.
pub open spec fn lines_from(line: Seq<u8>, rest: Seq<u8>) -> Seq<Seq<u8>>
    decreases rest.len(),
{
    if rest.len() == 0 {
        if line.len() == 0 {
            Seq::empty()
        } else {
            seq![line]
        }
    } else if rest[0] == NEWLINE {
        seq![without_return(line)] + lines_from(Seq::empty(), rest.drop_first())
    } else {
        lines_from(line.push(rest[0]), rest.drop_first())
    }
}

pub open spec fn views(lines: Seq<Vec<u8>>) -> Seq<Seq<u8>> {
    Seq::new(lines.len(), |i: int| lines[i]@)
}

pub open spec fn texts(lines: Seq<String>) -> Seq<Seq<char>> {
    Seq::new(lines.len(), |i: int| lines[i]@)
}

/// Splits a text into lines.
pub fn split_lines(bytes: &Vec<u8>) -> (lines: Vec<Vec<u8>>)
    ensures
        views(lines@) == lines_from(Seq::empty(), bytes@),
{
    let mut lines: Vec<Vec<u8>> = Vec::new();
    let mut line: Vec<u8> = Vec::new();
    let mut i: usize = 0;
    assert(bytes@.skip(0) =~= bytes@);
    assert(views(lines@) + lines_from(line@, bytes@) =~= lines_from(Seq::empty(), bytes@));
    while i < bytes.len()
        invariant
            i <= bytes@.len(),
            views(lines@) + lines_from(line@, bytes@.skip(i as int)) == lines_from(
                Seq::empty(),
                bytes@,
            ),
        decreases bytes@.len() - i,
    {
        let byte: u8 = bytes[i];
        let ghost rest = bytes@.skip(i as int);
        let ghost before = lines@;
        assert(rest.drop_first() =~= bytes@.skip(i + 1));
        if byte == NEWLINE {
            let ghost whole = line@;
            if line.len() > 0 && line[line.len() - 1] == 0x0d {
                line.pop();
            }
            assert(line@ =~= without_return(whole));
            lines.push(line);
            line = Vec::new();
            assert(views(lines@) =~= views(before).push(without_return(whole)));
            assert(views(lines@) + lines_from(Seq::empty(), rest.drop_first()) =~= views(before) + (
            seq![without_return(whole)] + lines_from(Seq::empty(), rest.drop_first())));
        } else {
            line.push(byte);
        }
        i = i + 1;
    }
    assert(bytes@.skip(i as int) =~= Seq::<u8>::empty());
    let ghost before = lines@;
    if line.len() > 0 {
        let ghost last = line@;
        lines.push(line);
        assert(views(lines@) =~= views(before) + seq![last]);
    } else {
        assert(views(lines@) =~= views(before) + Seq::<Seq<u8>>::empty());
    }
    lines
}

/// Whether a text starts with a byte order mark.
pub open spec fn is_marked(line: Seq<u8>) -> bool {
    line.len() >= 3 && line[0] == 0xef && line[1] == 0xbb && line[2] == 0xbf
}

/// A text without the byte order marks that it starts with.
pub open spec fn without_marks(line: Seq<u8>) -> Seq<u8>
    decreases line.len(),
{
    if is_marked(line) {
        without_marks(line.skip(3))
    } else {
        line
    }
}

fn drop_marks(line: &Vec<u8>) -> (rest: Vec<u8>)
    ensures
        rest@ == without_marks(line@),
{
    let mut start: usize = 0;
    assert(line@.skip(0) =~= line@);
    while line.len() - start >= 3 && line[start] == 0xef && line[start + 1] == 0xbb && line[start
        + 2] == 0xbf
        invariant
            start <= line@.len(),
            without_marks(line@.skip(start as int)) == without_marks(line@),
        ensures
            start <= line@.len(),
            line@.skip(start as int) == without_marks(line@),
        decreases line@.len() - start,
    {
        assert(line@.skip(start as int).skip(3) =~= line@.skip(start + 3));
        start = start + 3;
    }
    let mut rest: Vec<u8> = Vec::new();
    let mut i: usize = start;
    while i < line.len()
        invariant
            start <= i <= line@.len(),
            rest@ == line@.subrange(start as int, i as int),
        decreases line@.len() - i,
    {
        rest.push(line[i]);
        i = i + 1;
        assert(rest@ =~= line@.subrange(start as int, i as int));
    }
    assert(rest@ =~= line@.skip(start as int));
    rest
}

/// The lines up to the first that is not valid UTF-8, decoded.
pub open spec fn decoded_lines(lines: Seq<Seq<u8>>) -> Seq<Seq<char>>
    decreases lines.len(),
{
    if lines.len() == 0 || !utf8::valid_utf8(lines[0]) {
        Seq::empty()
    } else {
        seq![utf8::decode_utf8(lines[0])] + decoded_lines(lines.drop_first())
    }
}

/// The first line loses the byte order marks in front of it.
pub open spec fn unmarked_lines(lines: Seq<Seq<u8>>) -> Seq<Seq<u8>> {
    if lines.len() == 0 {
        lines
    } else {
        lines.update(0, without_marks(lines[0]))
    }
}

/// The lines of an ignore file: those before the first one that is not valid UTF-8, with byte order
/// marks at the start of the file left out.
pub open spec fn rule_lines(bytes: Seq<u8>) -> Seq<Seq<char>> {
    decoded_lines(unmarked_lines(lines_from(Seq::empty(), bytes)))
}

/// Reads the lines of an ignore file.
pub fn read_rule_lines(bytes: &Vec<u8>) -> (lines: Vec<String>)
    ensures
        texts(lines@) == rule_lines(bytes@),
{
    let raw: Vec<Vec<u8>> = split_lines(bytes);
    let ghost all = unmarked_lines(views(raw@));
    let mut lines: Vec<String> = Vec::new();
    let mut i: usize = 0;
    assert(all.skip(0) =~= all);
    assert(texts(lines@) + decoded_lines(all) =~= decoded_lines(all));
    while i < raw.len()
        invariant
            i <= raw@.len(),
            all == unmarked_lines(views(raw@)),
            all.len() == raw@.len(),
            texts(lines@) + decoded_lines(all.skip(i as int)) == decoded_lines(all),
            decoded_lines(all) == rule_lines(bytes@),
        decreases raw@.len() - i,
    {
        let line: Vec<u8> = if i == 0 {
            drop_marks(&raw[i])
        } else {
            raw[i].clone()
        };
        let ghost rest = all.skip(i as int);
        assert(line@ == rest[0]);
        assert(rest.drop_first() =~= all.skip(i + 1));
        let ghost before = lines@;
        match decode(line) {
            Some(text) => {
                lines.push(text);
                assert(texts(lines@) =~= texts(before).push(text@));
                assert(texts(before) + (seq![text@] + decoded_lines(rest.drop_first())) =~= texts(
                    lines@,
                ) + decoded_lines(rest.drop_first()));
            },
            None => {
                assert(texts(lines@) + Seq::<Seq<char>>::empty() =~= texts(lines@));
                return lines;
            },
        }
        i = i + 1;
    }
    assert(all.skip(i as int) =~= Seq::<Seq<u8>>::empty());
    assert(texts(lines@) + Seq::<Seq<char>>::empty() =~= texts(lines@));
    lines
}

/// Whether a character is white space.
pub open spec fn is_white(c: char) -> bool {
    ||| 0x09 <= c as u32 <= 0x0d
    ||| c as u32 == 0x20
    ||| c as u32 == 0x85
    ||| c as u32 == 0xa0
    ||| c as u32 == 0x1680
    ||| 0x2000 <= c as u32 <= 0x200a
    ||| c as u32 == 0x2028
    ||| c as u32 == 0x2029
    ||| c as u32 == 0x202f
    ||| c as u32 == 0x205f
    ||| c as u32 == 0x3000
}

fn white(c: char) -> (white: bool)
    ensures
        white == is_white(c),
{
    let code: u32 = c as u32;
    (0x09 <= code && code <= 0x0d) || code == 0x20 || code == 0x85 || code == 0xa0 || code == 0x1680
        || (0x2000 <= code && code <= 0x200a) || code == 0x2028 || code == 0x2029 || code == 0x202f
        || code == 0x205f || code == 0x3000
}

/// Whether a text holds more than white space.
pub open spec fn is_inked(text: Seq<char>) -> bool {
    exists|i: int| 0 <= i < text.len() && !is_white(#[trigger] text[i])
}

/// Whether a line holds more than white space. One that is not valid UTF-8 does.
pub open spec fn is_filled(line: Seq<u8>) -> bool {
    !utf8::valid_utf8(line) || is_inked(utf8::decode_utf8(line))
}

/// How many of the lines hold more than white space.
pub open spec fn filled_among(lines: Seq<Seq<u8>>) -> nat
    decreases lines.len(),
{
    if lines.len() == 0 {
        0
    } else {
        filled_among(lines.drop_first()) + if is_filled(lines[0]) {
            1nat
        } else {
            0nat
        }
    }
}

/// How many lines of a text hold more than white space.
pub open spec fn filled_lines(bytes: Seq<u8>) -> nat {
    filled_among(lines_from(Seq::empty(), bytes))
}

fn inked(text: &str) -> (inked: bool)
    ensures
        inked == is_inked(text@),
{
    let ghost whole = text@;
    for c in it: text.chars()
        invariant
            it.seq() == whole,
            whole == text@,
            forall|k: int| 0 <= k < it.index() ==> is_white(#[trigger] whole[k]),
    {
        assert(whole[it.index() as int] == c);
        if !white(c) {
            return true;
        }
    }
    false
}

/// Counts the lines that hold more than white space, whatever their encoding. The count is kept in 32
/// bits and starts over when it passes them.
pub fn count_filled_lines(bytes: &Vec<u8>) -> (count: u32)
    ensures
        count as int == filled_lines(bytes@) as int % 0x1_0000_0000,
{
    let lines: Vec<Vec<u8>> = split_lines(bytes);
    let ghost all = views(lines@);
    let mut count: u32 = 0;
    let mut i: usize = 0;
    assert(all.skip(0) =~= all);
    while i < lines.len()
        invariant
            i <= lines@.len(),
            all == views(lines@),
            (count as int + filled_among(all.skip(i as int)) as int) % 0x1_0000_0000
                == filled_among(all) as int % 0x1_0000_0000,
        decreases lines@.len() - i,
    {
        let ghost rest = all.skip(i as int);
        assert(rest.drop_first() =~= all.skip(i + 1));
        let line: Vec<u8> = lines[i].clone();
        assert(rest[0] == line@);
        let filled = match decode(line) {
            Some(text) => inked(text.as_str()),
            None => true,
        };
        if filled {
            count = count.wrapping_add(1);
        }
        i = i + 1;
    }
    assert(all.skip(i as int) =~= Seq::<Seq<u8>>::empty());
    count
}

/// How many lines of readable text hold more than white space, where `inked` says whether the part
/// of the first line that has been read already does.
pub open spec fn inked_lines(text: Seq<char>, inked: bool) -> nat
    decreases text.len(),
{
    if text.len() == 0 {
        if inked {
            1
        } else {
            0
        }
    } else if text[0] == '\n' {
        inked_lines(text.drop_first(), false) + if inked {
            1nat
        } else {
            0nat
        }
    } else {
        inked_lines(text.drop_first(), inked || !is_white(text[0]))
    }
}

/// A character other than a line feed is encoded without the line feed byte, and one other than a
/// carriage return does not end in the carriage return byte.
proof fn encoded_char(c: char)
    ensures
        c == '\n' ==> utf8::encode_scalar(c as u32) == seq![NEWLINE],
        c == '\r' ==> utf8::encode_scalar(c as u32) == seq![0x0du8],
        c != '\n' ==> !utf8::encode_scalar(c as u32).contains(NEWLINE),
        c != '\r' ==> utf8::encode_scalar(c as u32).last() != 0x0d,
        utf8::encode_scalar(c as u32).len() > 0,
{
    let v: u32 = c as u32;
    utf8::char_is_scalar(c);
    assert(v <= 0x7f ==> (v & 0x7f) as u8 == v) by (bit_vector);
    assert((0xC0u8 | ((v >> 6) & 0x1F) as u8) >= 0x80) by (bit_vector);
    assert((0xE0u8 | ((v >> 12) & 0x0F) as u8) >= 0x80) by (bit_vector);
    assert((0xF0u8 | ((v >> 18) & 0x7) as u8) >= 0x80) by (bit_vector);
    assert((0x80u8 | (v & 0x3F) as u8) >= 0x80) by (bit_vector);
    assert((0x80u8 | ((v >> 6) & 0x3F) as u8) >= 0x80) by (bit_vector);
    assert((0x80u8 | ((v >> 12) & 0x3F) as u8) >= 0x80) by (bit_vector);
    if v <= 0x7f {
        assert(utf8::encode_scalar(v) =~= seq![v as u8]);
    } else {
        assert forall|i: int| 0 <= i < utf8::encode_scalar(v).len() implies #[trigger] utf8::encode_scalar(
            v,
        )[i] >= 0x80 by {}
    }
}

proof fn encoding_grows(chars: Seq<char>, c: char)
    ensures
        utf8::encode_utf8(chars.push(c)) == utf8::encode_utf8(chars) + utf8::encode_scalar(
            c as u32,
        ),
    decreases chars.len(),
{
    let longer = chars.push(c);
    if chars.len() == 0 {
        assert(longer.drop_first() =~= Seq::<char>::empty());
        assert(utf8::encode_utf8(longer.drop_first()) =~= Seq::<u8>::empty());
        assert(utf8::encode_utf8(longer) =~= utf8::encode_utf8(chars) + utf8::encode_scalar(
            c as u32,
        ));
    } else {
        encoding_grows(chars.drop_first(), c);
        assert(longer.drop_first() =~= chars.drop_first().push(c));
        assert(utf8::encode_utf8(longer) =~= utf8::encode_utf8(chars) + utf8::encode_scalar(
            c as u32,
        ));
    }
}

proof fn ink_grows(chars: Seq<char>, c: char)
    ensures
        is_inked(chars.push(c)) == (is_inked(chars) || !is_white(c)),
{
    let longer = chars.push(c);
    if is_inked(chars) {
        let i = choose|i: int| 0 <= i < chars.len() && !is_white(#[trigger] chars[i]);
        assert(!is_white(longer[i]));
    }
    if !is_white(c) {
        assert(!is_white(longer[chars.len() as int]));
    }
    if is_inked(longer) {
        let i = choose|i: int| 0 <= i < longer.len() && !is_white(#[trigger] longer[i]);
        if i < chars.len() {
            assert(!is_white(chars[i]));
        }
    }
}

proof fn readable_line_is_filled(line: Seq<char>)
    ensures
        is_filled(utf8::encode_utf8(line)) == is_inked(line),
        is_filled(without_return(utf8::encode_utf8(line))) == is_inked(line),
{
    utf8::encode_utf8_valid_utf8(line);
    utf8::encode_utf8_decode_utf8(line);
    if line.len() > 0 {
        let shorter = line.drop_last();
        assert(line =~= shorter.push(line.last()));
        encoding_grows(shorter, line.last());
        encoded_char(line.last());
        ink_grows(shorter, line.last());
        let bytes = utf8::encode_utf8(line);
        assert(bytes.last() == utf8::encode_scalar(line.last() as u32).last());
        if line.last() == '\r' {
            assert(bytes.drop_last() =~= utf8::encode_utf8(shorter));
            utf8::encode_utf8_valid_utf8(shorter);
            utf8::encode_utf8_decode_utf8(shorter);
        }
    }
}

/// Bytes that are no line feeds go on the line.
pub proof fn line_takes_up(line: Seq<u8>, front: Seq<u8>, rest: Seq<u8>)
    requires
        !front.contains(NEWLINE),
    ensures
        lines_from(line, front + rest) == lines_from(line + front, rest),
    decreases front.len(),
{
    if front.len() == 0 {
        assert(front + rest =~= rest);
        assert(line + front =~= line);
    } else {
        let later = front.drop_first();
        assert(front.contains(front[0]));
        assert forall|x: u8| later.contains(x) implies front.contains(x) by {
            let i = choose|i: int| 0 <= i < later.len() && later[i] == x;
            assert(front[i + 1] == x);
        }
        assert((front + rest).drop_first() =~= later + rest);
        assert(line.push(front[0]) + later =~= line + front);
        line_takes_up(line.push(front[0]), later, rest);
    }
}

proof fn readable_rest_counts(line: Seq<char>, text: Seq<char>)
    ensures
        filled_among(lines_from(utf8::encode_utf8(line), utf8::encode_utf8(text))) == inked_lines(
            text,
            is_inked(line),
        ),
    decreases text.len(),
{
    let read = utf8::encode_utf8(line);
    let bytes = utf8::encode_utf8(text);
    readable_line_is_filled(line);
    if text.len() == 0 {
        if line.len() == 0 {
            assert(read.len() == 0);
        } else {
            encoded_char(line[0]);
            assert(read.len() > 0);
            assert(seq![read].drop_first() =~= Seq::<Seq<u8>>::empty());
            assert(filled_among(seq![read].drop_first()) == 0);
        }
    } else {
        let c = text[0];
        let rest = text.drop_first();
        let after = utf8::encode_utf8(rest);
        encoded_char(c);
        if c == '\n' {
            let empty = Seq::<char>::empty();
            readable_rest_counts(empty, rest);
            assert(bytes.drop_first() =~= after);
            let lines = lines_from(read, bytes);
            assert(lines.drop_first() =~= lines_from(Seq::empty(), after));
            assert(utf8::encode_utf8(empty) =~= Seq::<u8>::empty());
            assert(!is_inked(empty));
        } else {
            line_takes_up(read, utf8::encode_scalar(c as u32), after);
            encoding_grows(line, c);
            ink_grows(line, c);
            readable_rest_counts(line.push(c), rest);
        }
    }
}

/// Where a text is readable as a whole, its lines can as well be counted in the text.
pub proof fn readable_lines_count(bytes: Seq<u8>)
    requires
        utf8::valid_utf8(bytes),
    ensures
        filled_lines(bytes) == inked_lines(utf8::decode_utf8(bytes), false),
{
    utf8::decode_utf8_encode_utf8(bytes);
    let empty = Seq::<char>::empty();
    assert(utf8::encode_utf8(empty) =~= Seq::<u8>::empty());
    assert(!is_inked(empty));
    readable_rest_counts(empty, utf8::decode_utf8(bytes));
}

/// The lines that a text holds whole: everything up to its last line feed.
pub open spec fn whole_lines(bytes: Seq<u8>) -> Seq<u8>
    decreases bytes.len(),
{
    if bytes.len() == 0 || bytes.last() == NEWLINE {
        bytes
    } else {
        whole_lines(bytes.drop_last())
    }
}

/// Drops what follows the last line feed.
pub fn keep_whole_lines(bytes: Vec<u8>) -> (kept: Vec<u8>)
    ensures
        kept@ == whole_lines(bytes@),
{
    let mut kept: Vec<u8> = bytes;
    while kept.len() > 0 && kept[kept.len() - 1] != NEWLINE
        invariant
            whole_lines(kept@) == whole_lines(bytes@),
        decreases kept@.len(),
    {
        let ghost before = kept@;
        kept.pop();
        assert(kept@ =~= before.drop_last());
    }
    kept
}

} // verus!
