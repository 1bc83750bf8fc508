//! Decimal numbers as text.

use vstd::prelude::*;
use vstd::string::*;

verus! {

/// True for the ten decimal digits.
pub open spec fn is_digit(c: char) -> bool {
    '0' <= c && c <= '9'
}

/// What a digit counts for; zero for any other character.
pub open spec fn digit_value(c: char) -> nat {
    if is_digit(c) {
        (c as u32 - '0' as u32) as nat
    } else {
        0
    }
}

/// True when every character is a decimal digit.
pub open spec fn all_digits(s: Seq<char>) -> bool {
    forall|i: int| 0 <= i < s.len() ==> is_digit(#[trigger] s[i])
}

/// The number that a run of digits denotes, most significant digit first.
pub open spec fn decimal_value(s: Seq<char>) -> nat
    decreases s.len(),
{
    if s.len() == 0 {
        0
    } else {
        decimal_value(s.drop_last()) * 10 + digit_value(s.last())
    }
}

/// The text without the plus sign that may lead it.
pub open spec fn unsigned_part(s: Seq<char>) -> Seq<char> {
    if s.len() > 0 && s[0] == '+' {
        s.drop_first()
    } else {
        s
    }
}

/// True when the text is a decimal number that fits in 32 bits: one or more
/// digits, possibly after a single plus sign.
pub open spec fn is_u32_text(s: Seq<char>) -> bool {
    let digits = unsigned_part(s);
    digits.len() > 0 && all_digits(digits) && decimal_value(digits) <= u32::MAX
}

/// The number that such a text denotes.
pub open spec fn u32_of_text(s: Seq<char>) -> u32 {
    decimal_value(unsigned_part(s)) as u32
}

/// A run of characters denotes at least what any of its prefixes denotes.
pub proof fn lemma_decimal_value_prefix(s: Seq<char>, n: int)
    requires
        0 <= n <= s.len(),
    ensures
        decimal_value(s.subrange(0, n)) <= decimal_value(s),
    decreases s.len() - n,
{
    if n == s.len() {
        assert(s.subrange(0, n) =~= s);
    } else {
        lemma_decimal_value_prefix(s.drop_last(), n);
        assert(s.drop_last().subrange(0, n) =~= s.subrange(0, n));
    }
}

/// Reads a decimal number of at most 32 bits.
pub fn parse_u32(s: &str) -> (number: Option<u32>)
    ensures
        number == if is_u32_text(s@) {
            Some(u32_of_text(s@))
        } else {
            None::<u32>
        },
{
    let mut value: u32 = 0;
    let mut any: bool = false;
    let mut signed: bool = false;
    let ghost skip: int = if s@.len() > 0 && s@[0] == '+' { 1 } else { 0 };
    for c in it: s.chars()
        invariant
            it.seq() == s@,
            it.index() <= s@.len(),
            skip == if s@.len() > 0 && s@[0] == '+' { 1int } else { 0int },
            it.index() > 0 ==> (signed <==> skip == 1),
            it.index() == 0 ==> !signed && !any && value == 0,
            it.index() > 0 ==> (any <==> it.index() > skip),
            it.index() > 0 ==> all_digits(s@.subrange(skip, it.index() as int)),
            it.index() > 0 ==> value == decimal_value(s@.subrange(skip, it.index() as int)),
    {
        let ghost k = it.index() as int;
        if !any && !signed && c == '+' {
            signed = true;
            proof {
                assert(k == 0);
                assert(s@.subrange(1, 1) =~= Seq::<char>::empty());
            }
        } else {
            proof {
                if k == 0 {
                    assert(s@.subrange(0, 0) =~= Seq::<char>::empty());
                }
            }
            let ghost before = s@.subrange(skip, k);
            let ghost after = s@.subrange(skip, k + 1);
            proof {
                assert(after.drop_last() =~= before);
                assert(after.last() == c);
                assert(unsigned_part(s@) =~= s@.subrange(skip, s@.len() as int));
                assert(unsigned_part(s@).subrange(0, k + 1 - skip) =~= after);
                lemma_decimal_value_prefix(unsigned_part(s@), k + 1 - skip);
            }
            if !(c >= '0' && c <= '9') {
                proof {
                    assert(unsigned_part(s@)[k - skip] == c);
                }
                return None;
            }
            let digit: u32 = c as u32 - '0' as u32;
            if value > (u32::MAX - digit) / 10 {
                return None;
            }
            value = value * 10 + digit;
            any = true;
            proof {
                assert forall|i: int| 0 <= i < after.len() implies is_digit(#[trigger] after[i]) by {
                    if i < before.len() {
                        assert(before[i] == after[i]);
                    }
                }
            }
        }
    }
    proof {
        assert(unsigned_part(s@) =~= s@.subrange(skip, s@.len() as int));
    }
    if !any {
        None
    } else {
        Some(value)
    }
}

/// The character that writes a digit; `'0'` for any number above nine.
pub open spec fn digit_char(digit: nat) -> char {
    if digit == 1 {
        '1'
    } else if digit == 2 {
        '2'
    } else if digit == 3 {
        '3'
    } else if digit == 4 {
        '4'
    } else if digit == 5 {
        '5'
    } else if digit == 6 {
        '6'
    } else if digit == 7 {
        '7'
    } else if digit == 8 {
        '8'
    } else if digit == 9 {
        '9'
    } else {
        '0'
    }
}

/// A number written in decimal, without leading zeros.
pub open spec fn decimal_text(number: nat) -> Seq<char>
    decreases number,
{
    if number < 10 {
        seq![digit_char(number)]
    } else {
        decimal_text(number / 10).push(digit_char(number % 10))
    }
}

/// A number written in decimal reads as that number.
pub proof fn lemma_decimal_text(number: nat)
    ensures
        decimal_text(number).len() >= 1,
        all_digits(decimal_text(number)),
        decimal_value(decimal_text(number)) == number,
    decreases number,
{
    let text = decimal_text(number);
    if number < 10 {
        assert(text.drop_last() =~= Seq::<char>::empty());
        assert(decimal_value(text.drop_last()) == 0);
        assert(digit_value(digit_char(number)) == number);
    } else {
        lemma_decimal_text(number / 10);
        assert(text.drop_last() =~= decimal_text(number / 10));
        assert(digit_value(digit_char(number % 10)) == number % 10);
        assert forall|i: int| 0 <= i < text.len() implies is_digit(#[trigger] text[i]) by {
            if i < text.len() - 1 {
                assert(text[i] == decimal_text(number / 10)[i]);
            }
        }
    }
}

/// The text of a single digit.
fn digit_str(digit: u32) -> (text: &'static str)
    requires
        digit < 10,
    ensures
        text@ == seq![digit_char(digit as nat)],
{
    proof {
        reveal_strlit("0");
        reveal_strlit("1");
        reveal_strlit("2");
        reveal_strlit("3");
        reveal_strlit("4");
        reveal_strlit("5");
        reveal_strlit("6");
        reveal_strlit("7");
        reveal_strlit("8");
        reveal_strlit("9");
    }
    let text = if digit == 0 {
        "0"
    } else if digit == 1 {
        "1"
    } else if digit == 2 {
        "2"
    } else if digit == 3 {
        "3"
    } else if digit == 4 {
        "4"
    } else if digit == 5 {
        "5"
    } else if digit == 6 {
        "6"
    } else if digit == 7 {
        "7"
    } else if digit == 8 {
        "8"
    } else {
        "9"
    };
    assert(text@ =~= seq![digit_char(digit as nat)]);
    text
}

/// Writes a number in decimal at the end of a string.
pub fn push_decimal(out: &mut String, number: u32)
    ensures
        final(out)@ == old(out)@ + decimal_text(number as nat),
    decreases number,
{
    if number >= 10 {
        push_decimal(out, number / 10);
    }
    out.append(digit_str(number % 10));
    assert(out@ =~= old(out)@ + decimal_text(number as nat));
}

/// The number of digits that a number takes in decimal.
pub fn decimal_len(number: u32) -> (len: usize)
    ensures
        len == decimal_text(number as nat).len(),
        1 <= len <= 10,
{
    proof {
        reveal_with_fuel(decimal_text, 11);
    }
    if number < 10 {
        1
    } else if number < 100 {
        2
    } else if number < 1000 {
        3
    } else if number < 10000 {
        4
    } else if number < 100000 {
        5
    } else if number < 1000000 {
        6
    } else if number < 10000000 {
        7
    } else if number < 100000000 {
        8
    } else if number < 1000000000 {
        9
    } else {
        10
    }
}

} // verus!
