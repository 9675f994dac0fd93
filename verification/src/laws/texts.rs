//! Numbers and fields as text, and how they are read back.
use vstd::prelude::*;

use crate::csv::{doubled, escaped, joined, lines_text, needs_quotes, optional_text, row_text};
use crate::job_files::{joined_path, text_below};
use crate::text::{decimal_text, digit_char, zero_padded};

verus! {

/// The value of a digit.
pub open spec fn digit_value(digit: char) -> int {
    digit as u32 - '0' as u32
}

/// The number that a row of digits stands for.
pub open spec fn value_of(text: Seq<char>) -> int
    decreases text.len(),
{
    if text.len() == 0 {
        0
    } else {
        10 * value_of(text.drop_last()) + digit_value(text.last())
    }
}

/// A digit is written as its own character.
pub proof fn lemma_digits(digit: int)
    requires
        0 <= digit < 10,
    ensures
        digit_value(digit_char(digit)) == digit,
{
}

/// A number is written in digits that read as that number, the first of them no zero
/// unless it is the only one.
pub proof fn lemma_decimal_text_reads_back(value: nat)
    ensures
        value_of(decimal_text(value)) == value,
        decimal_text(value).len() > 0,
        forall|i: int|
            0 <= i < decimal_text(value).len() ==> 0 <= digit_value(
                #[trigger] decimal_text(value)[i],
            ) < 10,
        decimal_text(value).len() > 1 ==> decimal_text(value)[0] != '0',
        value > 0 ==> decimal_text(value)[0] != '0',
    decreases value,
{
    reveal_with_fuel(value_of, 2);
    if value < 10 {
        lemma_digits(value as int);
        assert(decimal_text(value).drop_last() =~= Seq::<char>::empty());
    } else {
        lemma_decimal_text_reads_back(value / 10);
        lemma_digits((value % 10) as int);
        assert(decimal_text(value).drop_last() =~= decimal_text(value / 10));
    }
}

/// Zeros in front fill a text up to the width, never cut it, and do not change the
/// number that it reads as.
pub proof fn lemma_padding(text: Seq<char>, width: nat)
    ensures
        zero_padded(text, width).len() == if text.len() >= width {
            text.len()
        } else {
            width
        },
        zero_padded(text, width).skip(zero_padded(text, width).len() - text.len()) == text,
        forall|i: int|
            0 <= i < zero_padded(text, width).len() - text.len() ==> #[trigger] zero_padded(
                text,
                width,
            )[i] == '0',
        value_of(zero_padded(text, width)) == value_of(text),
{
    let padded = zero_padded(text, width);
    assert(padded.skip(padded.len() - text.len()) =~= text);
    if text.len() < width {
        let zeros = Seq::new((width - text.len()) as nat, |i: int| '0');
        lemma_zeros_in_front(zeros, text);
    }
}

proof fn lemma_zeros_in_front(zeros: Seq<char>, text: Seq<char>)
    requires
        forall|i: int| 0 <= i < zeros.len() ==> #[trigger] zeros[i] == '0',
    ensures
        value_of(zeros + text) == value_of(text),
    decreases zeros.len() + text.len(),
{
    if text.len() > 0 {
        assert((zeros + text).drop_last() =~= zeros + text.drop_last());
        lemma_zeros_in_front(zeros, text.drop_last());
    } else if zeros.len() > 0 {
        let fewer = zeros.drop_last();
        assert forall|i: int| 0 <= i < fewer.len() implies #[trigger] fewer[i] == '0' by {
            assert(zeros[i] == '0');
        }
        assert(zeros + text =~= zeros);
        assert((zeros + text).drop_last() =~= fewer + text);
        lemma_zeros_in_front(fewer, text);
        assert(zeros[zeros.len() - 1] == '0');
    } else {
        assert(zeros + text =~= text);
    }
}

/// A number that is there is written in decimal, one that is missing as nothing.
pub proof fn lemma_optional_numbers(value: Option<u64>)
    ensures
        value is None <==> optional_text(value).len() == 0,
        value is Some ==> value_of(optional_text(value)) == value->Some_0,
{
    if value is Some {
        lemma_decimal_text_reads_back(value->Some_0 as nat);
    }
}

/// How many quotes a text has.
pub open spec fn quotes(text: Seq<char>) -> nat
    decreases text.len(),
{
    if text.len() == 0 {
        0
    } else {
        quotes(text.drop_last()) + if text.last() == '"' {
            1nat
        } else {
            0
        }
    }
}

/// The text with each pair of quotes read as one.
pub open spec fn undoubled(text: Seq<char>) -> Seq<char>
    decreases text.len(),
{
    if text.len() == 0 {
        Seq::empty()
    } else if text.last() == '"' && text.len() >= 2 {
        undoubled(text.drop_last().drop_last()).push('"')
    } else {
        undoubled(text.drop_last()).push(text.last())
    }
}

/// Doubled quotes read back as the text; one character is added for each quote.
pub proof fn lemma_doubled_reads_back(text: Seq<char>)
    ensures
        undoubled(doubled(text)) == text,
        doubled(text).len() == text.len() + quotes(text),
    decreases text.len(),
{
    if text.len() == 0 {
        assert(undoubled(doubled(text)) =~= text);
    } else {
        let rest = text.drop_last();
        lemma_doubled_reads_back(rest);
        if text.last() == '"' {
            let whole = doubled(rest).push('"').push('"');
            assert(whole.drop_last() =~= doubled(rest).push('"'));
            assert(whole.drop_last().drop_last() =~= doubled(rest));
            assert(rest.push('"') =~= text);
        } else {
            let whole = doubled(rest).push(text.last());
            assert(whole.drop_last() =~= doubled(rest));
            assert(rest.push(text.last()) =~= text);
        }
    }
}

/// A field stands bare exactly where it has no comma, quote or line break; otherwise
/// it stands between quotes, and what is between them reads back as the field.
pub proof fn lemma_fields_read_back(text: Seq<char>)
    ensures
        (forall|i: int|
            0 <= i < text.len() ==> #[trigger] text[i] != ',' && text[i] != '"' && text[i] != '\n'
                && text[i] != '\r') ==> escaped(text) == text,
        (exists|i: int|
            0 <= i < text.len() && (#[trigger] text[i] == ',' || text[i] == '"' || text[i] == '\n'
                || text[i] == '\r')) ==> {
            let whole = escaped(text);
            &&& whole.len() >= 2
            &&& whole[0] == '"'
            &&& whole.last() == '"'
            &&& undoubled(whole.subrange(1, whole.len() - 1)) == text
        },
{
    lemma_doubled_reads_back(text);
    if needs_quotes(text) {
        let whole = escaped(text);
        assert(whole.subrange(1, whole.len() - 1) =~= doubled(text));
        assert(whole.last() == '"');
    }
    if exists|i: int|
        0 <= i < text.len() && (#[trigger] text[i] == ',' || text[i] == '"' || text[i] == '\n'
            || text[i] == '\r') {
        let i = choose|i: int|
            0 <= i < text.len() && (#[trigger] text[i] == ',' || text[i] == '"' || text[i] == '\n'
                || text[i] == '\r');
        assert(text.contains(text[i]));
    }
}

/// Where an item starts in a row of texts with separators between them.
pub open spec fn offset_of(items: Seq<Seq<char>>, separator: Seq<char>, at: int) -> int
    decreases at,
{
    if at <= 0 {
        0
    } else {
        offset_of(items, separator, at - 1) + items[at - 1].len() + separator.len()
    }
}

/// In a row every item stands in its place, with one separator before each but the
/// first, and nothing else.
pub proof fn lemma_items_in_a_row(items: Seq<Seq<char>>, separator: Seq<char>, at: int)
    requires
        0 <= at < items.len(),
    ensures
        ({
            let start = offset_of(items, separator, at);
            let row = joined(items, separator);
            &&& 0 <= start
            &&& start + items[at].len() <= row.len()
            &&& row.subrange(start, start + items[at].len()) == items[at]
            &&& at > 0 ==> start >= separator.len() && row.subrange(start - separator.len(), start)
                == separator
            &&& at == items.len() - 1 ==> row.len() == start + items[at].len()
        }),
    decreases items.len(),
{
    let row = joined(items, separator);
    let start = offset_of(items, separator, at);
    if items.len() == 1 {
        assert(row.subrange(0, items[0].len() as int) =~= items[0]);
    } else {
        let rest = items.drop_last();
        let before = joined(rest, separator);
        let last = items.len() - 1;
        lemma_same_offsets(rest, items, separator, at);
        if at < last {
            lemma_items_in_a_row(rest, separator, at);
            assert(row.subrange(start, start + items[at].len()) =~= before.subrange(
                start,
                start + items[at].len(),
            ));
            if at > 0 {
                assert(row.subrange(start - separator.len(), start) =~= before.subrange(
                    start - separator.len(),
                    start,
                ));
            }
        } else {
            lemma_items_in_a_row(rest, separator, last - 1);
            lemma_same_offsets(rest, items, separator, last - 1);
            assert(start == before.len() + separator.len());
            assert(row.subrange(start, start + items[at].len()) =~= items[at]);
            assert(row.subrange(start - separator.len(), start) =~= separator);
        }
    }
}

proof fn lemma_same_offsets(rest: Seq<Seq<char>>, items: Seq<Seq<char>>, separator: Seq<char>, at: int)
    requires
        rest == items.drop_last(),
        0 <= at < items.len(),
    ensures
        offset_of(rest, separator, at) == offset_of(items, separator, at),
    decreases at,
{
    if at > 0 {
        lemma_same_offsets(rest, items, separator, at - 1);
    }
}

/// A row holds its fields in order, each as it stands in a file, one comma between
/// two.
pub proof fn lemma_fields_in_a_row(fields: Seq<Seq<char>>, at: int)
    requires
        0 <= at < fields.len(),
    ensures
        ({
            let written = fields.map_values(|field: Seq<char>| escaped(field));
            let start = offset_of(written, seq![','], at);
            let row = row_text(fields);
            &&& 0 <= start
            &&& start + escaped(fields[at]).len() <= row.len()
            &&& row.subrange(start, start + escaped(fields[at]).len()) == escaped(fields[at])
            &&& at > 0 ==> start >= 1 && row[start - 1] == ','
            &&& at == fields.len() - 1 ==> row.len() == start + escaped(fields[at]).len()
        }),
{
    let written = fields.map_values(|field: Seq<char>| escaped(field));
    assert(written =~= fields.map(|i: int, field: Seq<char>| escaped(field)));
    lemma_items_in_a_row(written, seq![','], at);
    let start = offset_of(written, seq![','], at);
    if at > 0 {
        assert(row_text(fields).subrange(start - 1, start)[0] == seq![','][0]);
    }
}

/// The text of some rows ends every row with a line break.
pub proof fn lemma_rows_end_their_lines(rows: Seq<Seq<char>>, at: int)
    requires
        0 <= at < rows.len(),
    ensures
        ({
            let start = offset_of(rows, seq!['\n'], at);
            let text = lines_text(rows);
            &&& 0 <= start
            &&& start + rows[at].len() < text.len()
            &&& text.subrange(start, start + rows[at].len()) == rows[at]
            &&& text[start + rows[at].len()] == '\n'
            &&& at == rows.len() - 1 ==> text.len() == start + rows[at].len() + 1
        }),
{
    let line = seq!['\n'];
    let row = joined(rows, line);
    let text = lines_text(rows);
    let start = offset_of(rows, line, at);
    lemma_items_in_a_row(rows, line, at);
    assert(text.subrange(start, start + rows[at].len()) =~= row.subrange(
        start,
        start + rows[at].len(),
    ));
    if at < rows.len() - 1 {
        lemma_items_in_a_row(rows, line, at + 1);
        let next = offset_of(rows, line, at + 1);
        assert(next == start + rows[at].len() + 1);
        assert(row.subrange(next - 1, next)[0] == line[0]);
    }
}

/// A path below a directory ends with the name, with one slash between the two; a
/// name from the root, or without a directory, stands alone.
pub proof fn lemma_paths(directory: Seq<char>, name: Seq<char>)
    ensures
        directory.len() == 0 ==> joined_path(directory, name) == name,
        name.len() > 0 && name[0] == '/' ==> joined_path(directory, name) == name,
        directory.len() > 0 && (name.len() == 0 || name[0] != '/') ==> {
            let path = joined_path(directory, name);
            let gap = path.len() - name.len();
            &&& path.skip(gap) == name
            &&& path.take(directory.len() as int) == directory
            &&& path[gap - 1] == '/'
            &&& gap == directory.len() || gap == directory.len() + 1
            &&& gap == directory.len() <==> directory.last() == '/'
        },
{
    if directory.len() > 0 && (name.len() == 0 || name[0] != '/') {
        let path = joined_path(directory, name);
        let gap = path.len() - name.len();
        assert(path.skip(gap) =~= name);
        assert(path.take(directory.len() as int) =~= directory);
    }
}

/// Texts are ordered by their first difference, a text before what goes on from it;
/// of two different texts exactly one comes first.
pub proof fn lemma_texts_are_ordered(left: Seq<char>, right: Seq<char>)
    ensures
        left == right ==> !text_below(left, right),
        left != right ==> text_below(left, right) != text_below(right, left),
        left.len() < right.len() && right.take(left.len() as int) == left ==> text_below(
            left,
            right,
        ),
    decreases left.len(),
{
    if left.len() > 0 && right.len() > 0 && left[0] == right[0] {
        let l = left.skip(1);
        let r = right.skip(1);
        lemma_texts_are_ordered(l, r);
        if l == r {
            assert(left =~= seq![left[0]] + l);
            assert(right =~= seq![right[0]] + r);
        }
        if left.len() < right.len() && right.take(left.len() as int) == left {
            assert(r.take(l.len() as int) =~= l) by {
                assert forall|i: int| 0 <= i < l.len() implies r[i] == l[i] by {
                    assert(right.take(left.len() as int)[i + 1] == left[i + 1]);
                }
            }
        }
    } else if left.len() == 0 && right.len() == 0 {
        assert(left =~= right);
    } else if left.len() > 0 && right.len() > 0 {
        assert(left[0] < right[0] || right[0] < left[0]);
        if left.len() < right.len() && right.take(left.len() as int) == left {
            assert(right.take(left.len() as int)[0] == left[0]);
        }
    }
}

/// The first difference decides.
pub proof fn lemma_first_difference_decides(left: Seq<char>, right: Seq<char>, at: int)
    requires
        0 <= at < left.len(),
        at < right.len(),
        forall|i: int| 0 <= i < at ==> left[i] == right[i],
        left[at] != right[at],
    ensures
        text_below(left, right) <==> left[at] < right[at],
    decreases at,
{
    if at > 0 {
        let l = left.skip(1);
        let r = right.skip(1);
        assert(left[0] == right[0]);
        assert forall|i: int| 0 <= i < at - 1 implies l[i] == r[i] by {
            assert(left[i + 1] == right[i + 1]);
        }
        lemma_first_difference_decides(l, r, at - 1);
    }
}

} // verus!
