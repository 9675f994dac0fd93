//! Text: decimal numbers built digit by digit, and white space.
use vstd::prelude::*;

verus! {

/// `String::push` of the standard library: the character is put at the end of the
/// text, and what stood there before stays as it was.
pub assume_specification[ String::push ](text: &mut String, character: char)
    ensures
        final(text)@ == old(text)@.push(character),
;

/// The text of a single character.
pub fn char_text(character: char) -> (text: String)
    ensures
        text@ == seq![character],
{
    let mut text = String::new();
    text.push(character);
    assert(text@ =~= seq![character]);
    text
}

/// The character of a decimal digit.
pub open spec fn digit_char(digit: int) -> char {
    if digit == 0 {
        '0'
    } else if digit == 1 {
        '1'
    } else if digit == 2 {
        '2'
    } else if digit == 3 {
        '3'
    } else if digit == 4 {
        '4'
    } else if digit == 5 {
        '5'
    } else if digit == 6 {
        '6'
    } else if digit == 7 {
        '7'
    } else if digit == 8 {
        '8'
    } else {
        '9'
    }
}

/// Decimal notation without leading zeros.
pub open spec fn decimal_text(value: nat) -> Seq<char>
    decreases value,
{
    if value < 10 {
        seq![digit_char(value as int)]
    } else {
        decimal_text(value / 10).push(digit_char((value % 10) as int))
    }
}

/// `text` with zeros in front, up to `width` characters.
pub open spec fn zero_padded(text: Seq<char>, width: nat) -> Seq<char> {
    if text.len() >= width {
        text
    } else {
        Seq::new((width - text.len()) as nat, |i: int| '0') + text
    }
}

fn push_digit(text: &mut String, digit: u64)
    requires
        digit < 10,
    ensures
        final(text)@ == old(text)@.push(digit_char(digit as int)),
{
    proof {
        reveal_strlit("0");
        reveal_strlit("1");
        reveal_strlit("2");
        reveal_strlit("3");
        reveal_strlit("4");
        reveal_strlit("5");
        reveal_strlit("6");
        reveal_strlit("7");
        reveal_strlit("8");
        reveal_strlit("9");
    }
    let piece = if digit == 0 {
        "0"
    } else if digit == 1 {
        "1"
    } else if digit == 2 {
        "2"
    } else if digit == 3 {
        "3"
    } else if digit == 4 {
        "4"
    } else if digit == 5 {
        "5"
    } else if digit == 6 {
        "6"
    } else if digit == 7 {
        "7"
    } else if digit == 8 {
        "8"
    } else {
        "9"
    };
    text.append(piece);
    assert(text@ =~= old(text)@.push(digit_char(digit as int)));
}

/// Appends `value` in decimal.
pub fn push_decimal(text: &mut String, value: u64)
    ensures
        final(text)@ == old(text)@ + decimal_text(value as nat),
    decreases value,
{
    if value < 10 {
        push_digit(text, value);
        assert(text@ =~= old(text)@ + decimal_text(value as nat));
    } else {
        push_decimal(text, value / 10);
        push_digit(text, value % 10);
        assert(text@ =~= old(text)@ + decimal_text(value as nat));
    }
}

/// `value` in decimal.
pub fn decimal(value: u64) -> (text: String)
    ensures
        text@ == decimal_text(value as nat),
{
    let mut text = String::new();
    push_decimal(&mut text, value);
    assert(text@ =~= decimal_text(value as nat));
    text
}

/// `value` in decimal, with zeros in front up to `width` characters.
pub fn decimal_padded(value: u64, width: usize) -> (text: String)
    ensures
        text@ == zero_padded(decimal_text(value as nat), width as nat),
{
    let digits = decimal(value);
    let length = digits.as_str().unicode_len();
    let mut text = String::new();
    let mut filled: usize = length;
    proof {
        reveal_strlit("0");
    }
    while filled < width
        invariant
            length <= filled,
            filled <= width || filled == length,
            text@ == Seq::new((filled - length) as nat, |i: int| '0'),
            "0"@ == seq!['0'],
        decreases width - filled,
    {
        text.append("0");
        filled = filled + 1;
        assert(text@ =~= Seq::new((filled - length) as nat, |i: int| '0'));
    }
    text.append(digits.as_str());
    assert(text@ =~= zero_padded(decimal_text(value as nat), width as nat));
    text
}

/// White space.
pub open spec fn is_space(character: char) -> bool {
    let code = character as u32;
    ||| 0x9 <= code <= 0xd
    ||| code == 0x20
    ||| code == 0x85
    ||| code == 0xa0
    ||| code == 0x1680
    ||| 0x2000 <= code <= 0x200a
    ||| code == 0x2028
    ||| code == 0x2029
    ||| code == 0x202f
    ||| code == 0x205f
    ||| code == 0x3000
}

/// Nothing but white space.
pub open spec fn is_blank(text: Seq<char>) -> bool {
    forall|i: int| 0 <= i < text.len() ==> is_space(#[trigger] text[i])
}

fn space(character: char) -> (yes: bool)
    ensures
        yes == is_space(character),
{
    let code = character as u32;
    (0x9 <= code && code <= 0xd) || code == 0x20 || code == 0x85 || code == 0xa0 || code == 0x1680
        || (0x2000 <= code && code <= 0x200a) || code == 0x2028 || code == 0x2029 || code == 0x202f
        || code == 0x205f || code == 0x3000
}

pub fn blank(text: &str) -> (yes: bool)
    ensures
        yes == is_blank(text@),
{
    let length = text.unicode_len();
    let mut index: usize = 0;
    while index < length
        invariant
            index <= length,
            length == text@.len(),
            forall|i: int| 0 <= i < index ==> is_space(#[trigger] text@[i]),
        decreases length - index,
    {
        if !space(text.get_char(index)) {
            assert(!is_space(text@[index as int]));
            return false;
        }
        index = index + 1;
    }
    true
}

/// The number of words: runs of characters that are not white space.
pub open spec fn words(text: Seq<char>) -> nat
    decreases text.len(),
{
    if text.len() == 0 {
        0
    } else {
        let begins = !is_space(text.last()) && (text.len() == 1 || is_space(text[text.len() - 2]));
        words(text.drop_last()) + (if begins {
            1nat
        } else {
            0nat
        })
    }
}

pub fn word_count(text: &str) -> (count: usize)
    ensures
        count == words(text@),
{
    let length = text.unicode_len();
    let mut count: usize = 0;
    let mut index: usize = 0;
    let mut after_space: bool = true;
    while index < length
        invariant
            index <= length,
            length == text@.len(),
            count <= index,
            count == words(text@.take(index as int)),
            after_space == (index == 0 || is_space(text@[index - 1])),
        decreases length - index,
    {
        let is_white = space(text.get_char(index));
        assert(text@.take(index + 1).drop_last() =~= text@.take(index as int));
        if !is_white && after_space {
            count = count + 1;
        }
        after_space = is_white;
        index = index + 1;
    }
    assert(text@.take(length as int) =~= text@);
    count
}

} // verus!
