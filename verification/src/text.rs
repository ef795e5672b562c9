//! Text: numbers in decimal notation, and the few operations on names that
//! the netlist needs.

use vstd::prelude::*;
use vstd::string::*;

verus! {

/// The character of a decimal digit.
pub open spec fn digit(value: nat) -> char {
    if value == 0 {
        '0'
    } else if value == 1 {
        '1'
    } else if value == 2 {
        '2'
    } else if value == 3 {
        '3'
    } else if value == 4 {
        '4'
    } else if value == 5 {
        '5'
    } else if value == 6 {
        '6'
    } else if value == 7 {
        '7'
    } else if value == 8 {
        '8'
    } else {
        '9'
    }
}

/// A number in decimal notation, without leading zeros.
pub open spec fn decimal_digits(number: nat) -> Seq<char>
    decreases number,
{
    if number < 10 {
        seq![digit(number)]
    } else {
        decimal_digits(number / 10).push(digit(number % 10))
    }
}

fn digit_text(value: usize) -> (text: &'static str)
    requires
        value < 10,
    ensures
        text@ == seq![digit(value as nat)],
{
    let text = if value == 0 {
        "0"
    } else if value == 1 {
        "1"
    } else if value == 2 {
        "2"
    } else if value == 3 {
        "3"
    } else if value == 4 {
        "4"
    } else if value == 5 {
        "5"
    } else if value == 6 {
        "6"
    } else if value == 7 {
        "7"
    } else if value == 8 {
        "8"
    } else {
        "9"
    };
    proof {
        reveal_strlit("0");
        reveal_strlit("1");
        reveal_strlit("2");
        reveal_strlit("3");
        reveal_strlit("4");
        reveal_strlit("5");
        reveal_strlit("6");
        reveal_strlit("7");
        reveal_strlit("8");
        reveal_strlit("9");
        assert(text@ =~= seq![digit(value as nat)]);
    }
    text
}

/// A number in decimal notation.
pub fn decimal(number: usize) -> (text: String)
    ensures
        text@ == decimal_digits(number as nat),
    decreases number,
{
    if number < 10 {
        String::from_str(digit_text(number))
    } else {
        let text = decimal(number / 10).concat(digit_text(number % 10));
        assert(text@ =~= decimal_digits((number / 10) as nat).push(digit((number % 10) as nat)));
        text
    }
}

/// Whether two texts are the same.
pub fn same_text(a: &str, b: &str) -> (same: bool)
    ensures
        same == (a@ == b@),
{
    let length = a.unicode_len();
    if length != b.unicode_len() {
        return false;
    }
    let mut i: usize = 0;
    while i < length
        invariant
            i <= length,
            length == a@.len(),
            length == b@.len(),
            forall|k: int| 0 <= k < i ==> a@[k] == b@[k],
        decreases length - i,
    {
        if a.get_char(i) != b.get_char(i) {
            return false;
        }
        i += 1;
    }
    assert(a@ =~= b@);
    true
}

/// Where the part of `text` after its last `separator` begins: after the
/// last place that holds the separator, and at the start where none does.
pub open spec fn last_part_start(text: Seq<char>, separator: char, upto: int) -> int
    decreases upto,
{
    if upto <= 0 {
        0
    } else if text[upto - 1] == separator {
        upto
    } else {
        last_part_start(text, separator, upto - 1)
    }
}

/// The part of `text` after its last `separator`; the whole text where it
/// holds no separator.
pub open spec fn spec_last_part(text: Seq<char>, separator: char) -> Seq<char> {
    text.subrange(last_part_start(text, separator, text.len() as int), text.len() as int)
}

/// The last part of a text begins within the text.
pub proof fn lemma_last_part_start(text: Seq<char>, separator: char, upto: int)
    requires
        0 <= upto <= text.len(),
    ensures
        0 <= last_part_start(text, separator, upto) <= upto,
    decreases upto,
{
    if upto > 0 && text[upto - 1] != separator {
        lemma_last_part_start(text, separator, upto - 1);
    }
}

/// The part of `text` after its last `separator`.
pub fn last_part<'a>(text: &'a str, separator: char) -> (part: &'a str)
    ensures
        part@ == spec_last_part(text@, separator),
{
    let length = text.unicode_len();
    let mut start: usize = 0;
    let mut i: usize = 0;
    while i < length
        invariant
            i <= length,
            length == text@.len(),
            start == last_part_start(text@, separator, i as int),
            start <= i,
        decreases length - i,
    {
        if text.get_char(i) == separator {
            start = i + 1;
        }
        i += 1;
    }
    text.substring_char(start, length)
}

} // verus!
