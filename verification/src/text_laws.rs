//! What holds of the lines of every text.

use crate::text;
use vstd::prelude::*;
use vstd::utf8;

verus! {

/// The text that is spelled by line after line, each with a line feed behind it, and by what follows
/// the last line feed.
pub open spec fn spelled(ended: Seq<Seq<u8>>, rest: Seq<u8>) -> Seq<u8>
    decreases ended.len(),
{
    if ended.len() == 0 {
        rest
    } else {
        ended[0] + seq![0x0au8] + spelled(ended.drop_first(), rest)
    }
}

/// Whether none of the lines holds a line feed.
pub open spec fn are_lines(ended: Seq<Seq<u8>>, rest: Seq<u8>) -> bool {
    &&& forall|i: int| 0 <= i < ended.len() ==> !(#[trigger] ended[i]).contains(0x0au8)
    &&& !rest.contains(0x0au8)
}

/// The lines of a text that is spelled so. A line that was ended loses one carriage return at its
/// end, and what follows the last line feed is a line unless it is empty.
pub open spec fn all_lines(ended: Seq<Seq<u8>>, rest: Seq<u8>) -> Seq<Seq<u8>> {
    let chopped = Seq::new(
        ended.len(),
        |i: int|
            if ended[i].len() > 0 && ended[i].last() == 0x0d {
                ended[i].drop_last()
            } else {
                ended[i]
            },
    );
    if rest.len() == 0 {
        chopped
    } else {
        chopped.push(rest)
    }
}

/// Every text is spelled by lines in one way.
pub proof fn text_is_spelled(bytes: Seq<u8>) -> (lines: (Seq<Seq<u8>>, Seq<u8>))
    ensures
        are_lines(lines.0, lines.1),
        bytes == spelled(lines.0, lines.1),
    decreases bytes.len(),
{
    if bytes.len() == 0 {
        (Seq::empty(), bytes)
    } else {
        let (ended, rest) = text_is_spelled(bytes.drop_first());
        let byte = bytes[0];
        if byte == 0x0a {
            let empty = Seq::<u8>::empty();
            let more = seq![empty] + ended;
            assert(more.drop_first() =~= ended);
            assert(bytes =~= spelled(more, rest));
            assert forall|i: int| 0 <= i < more.len() implies !(#[trigger] more[i]).contains(
                0x0au8,
            ) by {
                if i > 0 {
                    assert(more[i] == ended[i - 1]);
                }
            }
            (more, rest)
        } else if ended.len() == 0 {
            let longer = seq![byte] + rest;
            assert(bytes =~= longer);
            assert forall|i: int| 0 <= i < longer.len() implies longer[i] != 0x0au8 by {
                if i > 0 {
                    assert(rest.contains(rest[i - 1]));
                }
            }
            (ended, longer)
        } else {
            let first = seq![byte] + ended[0];
            let more = ended.update(0, first);
            assert(more.drop_first() =~= ended.drop_first());
            assert(more[0] == first);
            assert(bytes =~= seq![byte] + spelled(ended, rest));
            assert(bytes =~= spelled(more, rest));
            assert forall|i: int| 0 <= i < first.len() implies first[i] != 0x0au8 by {
                if i > 0 {
                    assert(ended[0].contains(ended[0][i - 1]));
                }
            }
            assert forall|i: int| 0 <= i < more.len() implies !(#[trigger] more[i]).contains(
                0x0au8,
            ) by {
                if i > 0 {
                    assert(more[i] == ended[i]);
                }
            }
            (more, rest)
        }
    }
}

/// A text is split at its line feeds and nowhere else, and no line is lost, blank or not: there are
/// as many lines as line feeds, and one more where something follows the last of them.
pub proof fn lines_are_those_spelled(ended: Seq<Seq<u8>>, rest: Seq<u8>)
    requires
        are_lines(ended, rest),
    ensures
        text::lines_from(Seq::empty(), spelled(ended, rest)) == all_lines(ended, rest),
    decreases ended.len(),
{
    let empty = Seq::<u8>::empty();
    let lines = text::lines_from(empty, spelled(ended, rest));
    if ended.len() == 0 {
        text::line_takes_up(empty, rest, empty);
        assert(rest + empty =~= rest);
        assert(empty + rest =~= rest);
        assert(text::lines_from(rest, empty) =~= all_lines(ended, rest));
    } else {
        let more = ended.drop_first();
        let after = seq![0x0au8] + spelled(more, rest);
        assert(are_lines(more, rest)) by {
            assert forall|i: int| 0 <= i < more.len() implies !(#[trigger] more[i]).contains(
                0x0au8,
            ) by {
                assert(more[i] == ended[i + 1]);
            }
        }
        lines_are_those_spelled(more, rest);
        text::line_takes_up(empty, ended[0], after);
        assert(empty + ended[0] =~= ended[0]);
        assert(spelled(ended, rest) =~= ended[0] + after);
        assert(after.drop_first() =~= spelled(more, rest));
        assert(all_lines(ended, rest) =~= seq![all_lines(ended, rest)[0]] + all_lines(more, rest));
    }
}

/// Whether a line is valid UTF-8 and `read` is the text that it encodes.
pub open spec fn reads_as(line: Seq<u8>, read: Seq<char>) -> bool {
    utf8::valid_utf8(line) && read == utf8::decode_utf8(line)
}

/// Whether `read` holds the lines up to the first that is not valid UTF-8, decoded one by one.
pub open spec fn is_read_from(read: Seq<Seq<char>>, lines: Seq<Seq<u8>>) -> bool {
    &&& read.len() <= lines.len()
    &&& forall|i: int| 0 <= i < read.len() ==> reads_as(lines[i], #[trigger] read[i])
    &&& read.len() < lines.len() ==> !utf8::valid_utf8(lines[read.len() as int])
}

proof fn decoded_lines_hold(lines: Seq<Seq<u8>>)
    ensures
        is_read_from(text::decoded_lines(lines), lines),
    decreases lines.len(),
{
    if lines.len() > 0 && utf8::valid_utf8(lines[0]) {
        let later = lines.drop_first();
        let decoded = text::decoded_lines(lines);
        let rest = text::decoded_lines(later);
        decoded_lines_hold(later);
        assert forall|i: int| 0 <= i < decoded.len() implies reads_as(
            lines[i],
            #[trigger] decoded[i],
        ) by {
            if i > 0 {
                assert(decoded[i] == rest[i - 1]);
                assert(later[i - 1] == lines[i]);
            }
        }
        if decoded.len() < lines.len() {
            assert(lines[decoded.len() as int] == later[rest.len() as int]);
        }
    }
}

/// The rules of an ignore file that does not start with a byte order mark are its lines, decoded one
/// by one: each line up to the first that is not valid UTF-8, and the blank ones among them too.
pub proof fn rule_lines_are_the_lines(ended: Seq<Seq<u8>>, rest: Seq<u8>)
    requires
        are_lines(ended, rest),
        !(seq![0xefu8, 0xbbu8, 0xbfu8]).is_prefix_of(spelled(ended, rest)),
    ensures
        is_read_from(text::rule_lines(spelled(ended, rest)), all_lines(ended, rest)),
{
    let bytes = spelled(ended, rest);
    let lines = all_lines(ended, rest);
    lines_are_those_spelled(ended, rest);
    if lines.len() > 0 {
        assert(!text::is_marked(lines[0])) by {
            if text::is_marked(lines[0]) {
                assert(forall|i: int| 0 <= i < 3 ==> lines[0][i] == bytes[i]);
                assert(seq![0xefu8, 0xbbu8, 0xbfu8].is_prefix_of(bytes));
            }
        }
        assert(text::without_marks(lines[0]) == lines[0]);
    }
    assert(text::unmarked_lines(lines) =~= lines);
    decoded_lines_hold(lines);
}

/// A byte order mark in front of an ignore file that holds anything changes nothing.
pub proof fn marks_in_front_do_not_count(bytes: Seq<u8>)
    requires
        bytes.len() > 0,
    ensures
        text::rule_lines(seq![0xefu8, 0xbbu8, 0xbfu8] + bytes) == text::rule_lines(bytes),
{
    let mark = seq![0xefu8, 0xbbu8, 0xbfu8];
    let marked = mark + bytes;
    let (ended, rest) = text_is_spelled(bytes);
    lines_are_those_spelled(ended, rest);
    assert(!mark.contains(0x0au8));
    if ended.len() == 0 {
        let longer = mark + rest;
        assert forall|i: int| 0 <= i < longer.len() implies longer[i] != 0x0au8 by {
            if i >= 3 {
                assert(rest.contains(rest[i - 3]));
            }
        }
        assert(marked =~= spelled(ended, longer));
        lines_are_those_spelled(ended, longer);
        assert(longer.skip(3) =~= rest);
        let one = all_lines(ended, longer);
        let other = all_lines(ended, rest);
        assert(one[0] == longer && other[0] == rest);
        assert(text::unmarked_lines(one) =~= text::unmarked_lines(other));
    } else {
        let first = mark + ended[0];
        let more = ended.update(0, first);
        assert forall|i: int| 0 <= i < first.len() implies first[i] != 0x0au8 by {
            if i >= 3 {
                assert(ended[0].contains(ended[0][i - 3]));
            }
        }
        assert forall|i: int| 0 <= i < more.len() implies !(#[trigger] more[i]).contains(
            0x0au8,
        ) by {
            if i > 0 {
                assert(more[i] == ended[i]);
            }
        }
        assert(more.drop_first() =~= ended.drop_first());
        assert(marked =~= spelled(more, rest));
        lines_are_those_spelled(more, rest);
        let one = all_lines(more, rest);
        let other = all_lines(ended, rest);
        assert(one[0] =~= mark + other[0]);
        assert(one[0].skip(3) =~= other[0]);
        assert(text::unmarked_lines(one) =~= text::unmarked_lines(other));
    }
}

/// Readable text around an ASCII byte is readable on both sides of it.
proof fn readable_on_both_sides(front: Seq<u8>, byte: u8, back: Seq<u8>)
    requires
        byte < 0x80,
        utf8::valid_utf8(front + seq![byte] + back),
    ensures
        utf8::valid_utf8(front),
        utf8::valid_utf8(back),
{
    let whole = front + seq![byte] + back;
    let at = front.len() as int;
    assert(whole[at] == byte);
    utf8::is_char_boundary_iff_not_is_continuation_byte(whole, at);
    utf8::valid_utf8_split(whole, at);
    assert(whole.subrange(0, at) =~= front);
    let later = whole.subrange(at, whole.len() as int);
    assert(later =~= seq![byte] + back);
    assert(utf8::pop_first_scalar(later) =~= back);
}

proof fn lines_are_readable(ended: Seq<Seq<u8>>, rest: Seq<u8>)
    requires
        utf8::valid_utf8(spelled(ended, rest)),
    ensures
        forall|i: int|
            0 <= i < all_lines(ended, rest).len() ==> utf8::valid_utf8(
                #[trigger] all_lines(ended, rest)[i],
            ),
    decreases ended.len(),
{
    let lines = all_lines(ended, rest);
    if ended.len() > 0 {
        let later = all_lines(ended.drop_first(), rest);
        readable_on_both_sides(ended[0], 0x0a, spelled(ended.drop_first(), rest));
        lines_are_readable(ended.drop_first(), rest);
        if ended[0].len() > 0 && ended[0].last() == 0x0d {
            let empty = Seq::<u8>::empty();
            assert(ended[0] =~= ended[0].drop_last() + seq![0x0du8] + empty);
            readable_on_both_sides(ended[0].drop_last(), 0x0d, empty);
        }
        assert forall|i: int| 0 <= i < lines.len() implies utf8::valid_utf8(
            #[trigger] lines[i],
        ) by {
            if i > 0 {
                assert(lines[i] == later[i - 1]);
            }
        }
    }
}

/// Of an ignore file that is readable as a whole every line is a rule line: as many as it has line
/// feeds, and one more where something follows the last of them, in their order, blank or not.
pub proof fn readable_file_loses_no_line(ended: Seq<Seq<u8>>, rest: Seq<u8>)
    requires
        are_lines(ended, rest),
        utf8::valid_utf8(spelled(ended, rest)),
        !(seq![0xefu8, 0xbbu8, 0xbfu8]).is_prefix_of(spelled(ended, rest)),
    ensures
        ({
            let lines = all_lines(ended, rest);
            let read = text::rule_lines(spelled(ended, rest));
            &&& lines.len() == ended.len() + if rest.len() > 0 {
                1int
            } else {
                0int
            }
            &&& read.len() == lines.len()
            &&& forall|i: int|
                #![trigger read[i]]
                0 <= i < read.len() ==> read[i] == utf8::decode_utf8(lines[i])
        }),
{
    rule_lines_are_the_lines(ended, rest);
    lines_are_readable(ended, rest);
}

/// Whether a character is white space: a tab, a line feed or another control character that moves
/// on, a space of any width but zero, or a separator of lines or paragraphs.
pub open spec fn is_blank(c: char) -> bool {
    let code = c as u32;
    ||| code == 0x09 || code == 0x0a || code == 0x0b || code == 0x0c || code == 0x0d
    ||| code == 0x20 || code == 0x85 || code == 0xa0 || code == 0x1680
    ||| 0x2000 <= code && code <= 0x200a
    ||| code == 0x2028 || code == 0x2029 || code == 0x202f || code == 0x205f || code == 0x3000
}

/// Whether a line holds something other than white space, or cannot be read.
pub open spec fn holds_something(line: Seq<u8>) -> bool {
    utf8::valid_utf8(line) ==> exists|i: int|
        0 <= i < utf8::decode_utf8(line).len() && !is_blank(#[trigger] utf8::decode_utf8(line)[i])
}

proof fn filled_among_counts(lines: Seq<Seq<u8>>)
    ensures
        text::filled_among(lines) == lines.filter(|line: Seq<u8>| holds_something(line)).len(),
    decreases lines.len(),
{
    let pred = |line: Seq<u8>| holds_something(line);
    if lines.len() == 0 {
        reveal(Seq::filter);
    } else {
        let later = lines.drop_first();
        filled_among_counts(later);
        assert(lines =~= seq![lines[0]] + later);
        later.lemma_filter_prepend(lines[0], pred);
        let text = utf8::decode_utf8(lines[0]);
        assert(forall|i: int|
            0 <= i < text.len() ==> is_blank(#[trigger] text[i]) == text::is_white(text[i]));
        assert(holds_something(lines[0]) == text::is_filled(lines[0])) by {
            if text::is_inked(text) {
                let i = choose|i: int| 0 <= i < text.len() && !text::is_white(#[trigger] text[i]);
                assert(!is_blank(text[i]));
            }
            if exists|i: int| 0 <= i < text.len() && !is_blank(#[trigger] text[i]) {
                let i = choose|i: int| 0 <= i < text.len() && !is_blank(#[trigger] text[i]);
                assert(!text::is_white(text[i]));
            }
        }
    }
}

/// The lines of a text that are counted are those that hold something other than white space, each
/// of them once.
pub proof fn filled_lines_are_counted(ended: Seq<Seq<u8>>, rest: Seq<u8>)
    requires
        are_lines(ended, rest),
    ensures
        text::filled_lines(spelled(ended, rest)) == all_lines(ended, rest).filter(
            |line: Seq<u8>| holds_something(line),
        ).len(),
{
    lines_are_those_spelled(ended, rest);
    filled_among_counts(all_lines(ended, rest));
}

/// Of a text that was cut off the lines that were ended are kept as they are, and nothing else.
pub proof fn ended_lines_are_kept(ended: Seq<Seq<u8>>, rest: Seq<u8>)
    requires
        are_lines(ended, rest),
    ensures
        text::whole_lines(spelled(ended, rest)) == spelled(ended, Seq::empty()),
    decreases rest.len(),
{
    let bytes = spelled(ended, rest);
    let empty = Seq::<u8>::empty();
    spelled_ends(ended, rest);
    if rest.len() > 0 {
        let shorter = rest.drop_last();
        assert(rest.contains(rest.last()));
        assert forall|x: u8| shorter.contains(x) implies rest.contains(x) by {
            let i = choose|i: int| 0 <= i < shorter.len() && shorter[i] == x;
            assert(rest[i] == x);
        }
        ended_lines_are_kept(ended, shorter);
        spelled_ends(ended, shorter);
        assert(bytes.drop_last() =~= spelled(ended, shorter));
    } else {
        assert(rest =~= empty);
    }
}

proof fn spelled_ends(ended: Seq<Seq<u8>>, rest: Seq<u8>)
    ensures
        spelled(ended, rest) == spelled(ended, Seq::empty()) + rest,
        ended.len() > 0 ==> spelled(ended, Seq::empty()).len() > 0 && spelled(
            ended,
            Seq::empty(),
        ).last() == 0x0a,
        ended.len() == 0 ==> spelled(ended, Seq::empty()).len() == 0,
    decreases ended.len(),
{
    let empty = Seq::<u8>::empty();
    if ended.len() == 0 {
        assert(empty + rest =~= rest);
    } else {
        let more = ended.drop_first();
        spelled_ends(more, rest);
        assert(spelled(ended, rest) =~= spelled(ended, empty) + rest);
        let front = ended[0] + seq![0x0au8];
        assert(spelled(ended, empty) =~= front + spelled(more, empty));
        if more.len() == 0 {
            assert(front + spelled(more, empty) =~= front);
        }
    }
}

} // verus!
