//! CSV text.
use vstd::prelude::*;

verus! {

/// The field cannot stand bare between commas.
pub open spec fn needs_quotes(text: Seq<char>) -> bool {
    text.contains(',') || text.contains('"') || text.contains('\n') || text.contains('\r')
}

/// The text with each quote written twice.
pub open spec fn doubled(text: Seq<char>) -> Seq<char>
    decreases text.len(),
{
    if text.len() == 0 {
        Seq::empty()
    } else if text.last() == '"' {
        doubled(text.drop_last()).push('"').push('"')
    } else {
        doubled(text.drop_last()).push(text.last())
    }
}

/// A field as it stands in a row.
pub open spec fn escaped(text: Seq<char>) -> Seq<char> {
    if needs_quotes(text) {
        seq!['"'] + doubled(text) + seq!['"']
    } else {
        text
    }
}

/// Texts in a row with a separator between them.
pub open spec fn joined(items: Seq<Seq<char>>, separator: Seq<char>) -> Seq<char>
    decreases items.len(),
{
    if items.len() == 0 {
        Seq::empty()
    } else if items.len() == 1 {
        items[0]
    } else {
        joined(items.drop_last(), separator) + separator + items.last()
    }
}

/// The row of some fields.
pub open spec fn row_text(fields: Seq<Seq<char>>) -> Seq<char> {
    joined(fields.map(|i: int, field: Seq<char>| escaped(field)), seq![','])
}

pub open spec fn string_views(strings: Seq<String>) -> Seq<Seq<char>> {
    strings.map(|i: int, text: String| text@)
}

/// Rows under each other, each on a line of its own.
pub open spec fn lines_text(rows: Seq<Seq<char>>) -> Seq<char> {
    joined(rows, seq!['\n']).push('\n')
}

fn char_needs_quotes(character: char) -> (yes: bool)
    ensures
        yes == (character == ',' || character == '"' || character == '\n' || character == '\r'),
{
    character == ',' || character == '"' || character == '\n' || character == '\r'
}

/// Escapes a field.
pub fn csv_escape(value: &str) -> (field: String)
    ensures
        field@ == escaped(value@),
{
    let length = value.unicode_len();
    let mut quotes = false;
    let mut index: usize = 0;
    while index < length
        invariant
            index <= length,
            length == value@.len(),
            quotes <==> exists|i: int|
                0 <= i < index && ((#[trigger] value@[i]) == ',' || value@[i] == '"' || value@[i]
                    == '\n' || value@[i] == '\r'),
        decreases length - index,
    {
        let character = value.get_char(index);
        if char_needs_quotes(character) {
            assert(value@[index as int] == character);
            quotes = true;
        }
        index = index + 1;
    }
    proof {
        lemma_needs_quotes(value@);
    }
    if !quotes {
        let mut field = String::new();
        field.append(value);
        assert(field@ =~= value@);
        return field;
    }
    proof {
        reveal_strlit("\"");
    }
    let mut field = String::new();
    field.append("\"");
    let mut index: usize = 0;
    assert(value@.take(0) =~= Seq::<char>::empty());
    assert(field@ =~= seq!['"'] + doubled(value@.take(0)));
    while index < length
        invariant
            index <= length,
            length == value@.len(),
            "\""@ == seq!['"'],
            field@ == seq!['"'] + doubled(value@.take(index as int)),
        decreases length - index,
    {
        let character = value.get_char(index);
        let ghost before = field@;
        let ghost so_far = value@.take(index as int);
        let ghost more = value@.take(index as int + 1);
        assert(more.drop_last() =~= so_far);
        assert(more.last() == character);
        if character == '"' {
            field.append("\"");
            field.append("\"");
        } else {
            field.append(value.substring_char(index, index + 1));
        }
        assert(field@ =~= seq!['"'] + doubled(more));
        index = index + 1;
    }
    assert(value@.take(index as int) =~= value@);
    field.append("\"");
    assert(field@ =~= escaped(value@));
    field
}

proof fn lemma_needs_quotes(text: Seq<char>)
    ensures
        needs_quotes(text) <==> exists|i: int|
            0 <= i < text.len() && ((#[trigger] text[i]) == ',' || text[i] == '"' || text[i] == '\n'
                || text[i] == '\r'),
{
    if needs_quotes(text) {
        if text.contains(',') {
            let i = choose|i: int| 0 <= i < text.len() && text[i] == ',';
            assert(text[i] == ',');
        } else if text.contains('"') {
            let i = choose|i: int| 0 <= i < text.len() && text[i] == '"';
            assert(text[i] == '"');
        } else if text.contains('\n') {
            let i = choose|i: int| 0 <= i < text.len() && text[i] == '\n';
            assert(text[i] == '\n');
        } else {
            let i = choose|i: int| 0 <= i < text.len() && text[i] == '\r';
            assert(text[i] == '\r');
        }
    }
}

/// Joins texts, each made ready by the caller.
pub fn join_texts(items: &Vec<String>, separator: &str) -> (text: String)
    ensures
        text@ == joined(string_views(items@), separator@),
{
    let mut text = String::new();
    let mut index: usize = 0;
    let ghost views = string_views(items@);
    assert(text@ =~= Seq::<char>::empty());
    while index < items.len()
        invariant
            index <= items@.len(),
            views == string_views(items@),
            text@ == joined(views.take(index as int), separator@),
        decreases items.len() - index,
    {
        let ghost before = views.take(index as int);
        let ghost more = views.take(index as int + 1);
        assert(more.drop_last() =~= before);
        assert(more.last() == items@[index as int]@);
        if index > 0 {
            text.append(separator);
        }
        text.append(items[index].as_str());
        assert(text@ =~= joined(more, separator@));
        index = index + 1;
    }
    assert(views.take(index as int) =~= views);
    text
}

/// Writes fields as a row.
pub fn csv_row(fields: &Vec<String>) -> (row: String)
    ensures
        row@ == row_text(string_views(fields@)),
{
    let mut escaped_fields: Vec<String> = Vec::new();
    let mut index: usize = 0;
    while index < fields.len()
        invariant
            index <= fields@.len(),
            escaped_fields@.len() == index,
            forall|i: int|
                0 <= i < index ==> (#[trigger] escaped_fields@[i])@ == escaped(fields@[i]@),
        decreases fields.len() - index,
    {
        escaped_fields.push(csv_escape(fields[index].as_str()));
        index = index + 1;
    }
    proof {
        reveal_strlit(",");
        assert(","@ =~= seq![',']);
        assert(string_views(escaped_fields@) =~= string_views(fields@).map(
            |i: int, field: Seq<char>| escaped(field),
        ));
    }
    join_texts(&escaped_fields, ",")
}

/// Writes rows as lines.
pub fn csv_lines(rows: &Vec<String>) -> (text: String)
    ensures
        text@ == lines_text(string_views(rows@)),
{
    proof {
        reveal_strlit("\n");
        assert("\n"@ =~= seq!['\n']);
    }
    let mut text = join_texts(rows, "\n");
    text.append("\n");
    assert(text@ =~= lines_text(string_views(rows@)));
    text
}

/// The decimal text of a number, or nothing.
pub open spec fn optional_text(value: Option<u64>) -> Seq<char> {
    match value {
        Some(number) => crate::text::decimal_text(number as nat),
        None => Seq::empty(),
    }
}

pub fn optional_csv(value: Option<u64>) -> (text: String)
    ensures
        text@ == optional_text(value),
{
    match value {
        Some(number) => crate::text::decimal(number),
        None => {
            let text = String::new();
            assert(text@ =~= Seq::<char>::empty());
            text
        },
    }
}

proof fn lemma_doubled_injective(left: Seq<char>, right: Seq<char>)
    requires
        doubled(left) == doubled(right),
    ensures
        left == right,
    decreases left.len() + right.len(),
{
    if left.len() == 0 {
        assert(doubled(left).len() == 0);
        assert(right.len() == 0);
        assert(left =~= right);
    } else if right.len() == 0 {
        assert(doubled(right).len() == 0);
        assert(false);
    } else {
        let a = doubled(left);
        let b = doubled(right);
        let x = left.last();
        let y = right.last();
        assert(a.last() == x);
        assert(b.last() == y);
        let rest_a = doubled(left.drop_last());
        let rest_b = doubled(right.drop_last());
        if x == '"' {
            assert(rest_a =~= a.drop_last().drop_last());
            assert(rest_b =~= b.drop_last().drop_last());
        } else {
            assert(rest_a =~= a.drop_last());
            assert(rest_b =~= b.drop_last());
        }
        lemma_doubled_injective(left.drop_last(), right.drop_last());
        assert(left =~= left.drop_last().push(x));
        assert(right =~= right.drop_last().push(y));
    }
}

/// Different fields are written differently.
pub proof fn lemma_escaped_fields_differ(left: Seq<char>, right: Seq<char>)
    requires
        escaped(left) == escaped(right),
    ensures
        left == right,
{
    if needs_quotes(left) && needs_quotes(right) {
        let a = escaped(left);
        let b = escaped(right);
        assert(doubled(left) =~= a.subrange(1, a.len() - 1));
        assert(doubled(right) =~= b.subrange(1, b.len() - 1));
        lemma_doubled_injective(left, right);
    } else if needs_quotes(left) {
        assert(escaped(left)[0] == '"');
        assert(right.contains('"'));
    } else if needs_quotes(right) {
        assert(escaped(right)[0] == '"');
        assert(left.contains('"'));
    }
}

} // verus!
