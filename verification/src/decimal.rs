//! Decimal numerals: writing them and reading them back.

use vstd::prelude::*;
use crate::text::chars_of;

verus! {

/// The ten digits.
pub open spec fn digits() -> Seq<char> {
    seq!['0', '1', '2', '3', '4', '5', '6', '7', '8', '9']
}

/// The decimal numeral of a number.
pub open spec fn decimal(n: nat) -> Seq<char>
    decreases n,
{
    if n < 10 {
        seq![digits()[n as int]]
    } else {
        decimal(n / 10).push(digits()[(n % 10) as int])
    }
}

/// The decimal numeral of an integer, with a minus sign below zero.
pub open spec fn signed_decimal(n: int) -> Seq<char> {
    if n < 0 {
        seq!['-'] + decimal((-n) as nat)
    } else {
        decimal(n as nat)
    }
}

/// Whether a text holds nothing but digits.
pub open spec fn all_digits(text: Seq<char>) -> bool {
    forall|i: int| 0 <= i < text.len() ==> '0' <= #[trigger] text[i] <= '9'
}

/// The number that a row of digits stands for.
pub open spec fn digits_value(text: Seq<char>) -> nat
    decreases text.len(),
{
    if text.len() == 0 {
        0
    } else {
        digits_value(text.drop_last()) * 10 + (text.last() as nat - '0' as nat) as nat
    }
}

/// The number that a numeral stands for: digits, with or without a plus sign
/// before them. `None` for any other text and for a number above `max`.
pub open spec fn numeral_value(text: Seq<char>, max: nat) -> Option<nat> {
    let row = if text.len() > 0 && text.first() == '+' {
        text.drop_first()
    } else {
        text
    };
    if row.len() > 0 && all_digits(row) && digits_value(row) <= max {
        Some(digits_value(row))
    } else {
        None
    }
}

fn digit_text(digit: u128) -> (text: &'static str)
    requires
        digit < 10,
    ensures
        text@ == seq![digits()[digit as int]],
{
    proof {
        reveal_strlit("0");
        reveal_strlit("1");
        reveal_strlit("2");
        reveal_strlit("3");
        reveal_strlit("4");
        reveal_strlit("5");
        reveal_strlit("6");
        reveal_strlit("7");
        reveal_strlit("8");
        reveal_strlit("9");
    }
    let text = match digit {
        0 => "0",
        1 => "1",
        2 => "2",
        3 => "3",
        4 => "4",
        5 => "5",
        6 => "6",
        7 => "7",
        8 => "8",
        _ => "9",
    };
    assert(text@ =~= seq![digits()[digit as int]]);
    text
}

/// Writes a number as a decimal numeral.
pub fn decimal_text(n: u128) -> (text: String)
    ensures
        text@ == decimal(n as nat),
    decreases n,
{
    if n < 10 {
        digit_text(n).to_owned()
    } else {
        let mut text = decimal_text(n / 10);
        text.append(digit_text(n % 10));
        assert(text@ =~= decimal(n as nat));
        text
    }
}

/// Writes an integer as a decimal numeral.
pub fn signed_decimal_text(n: i64) -> (text: String)
    ensures
        text@ == signed_decimal(n as int),
{
    if n < 0 {
        proof {
            reveal_strlit("-");
        }
        let mut text = "-".to_owned();
        let magnitude: i128 = -(n as i128);
        let tail = decimal_text(magnitude as u128);
        text.append(tail.as_str());
        assert(text@ =~= signed_decimal(n as int));
        text
    } else {
        decimal_text(n as u128)
    }
}

proof fn lemma_digits_value_grows(text: Seq<char>, n: int)
    requires
        0 <= n <= text.len(),
    ensures
        digits_value(text.take(n)) <= digits_value(text),
    decreases text.len() - n,
{
    if n < text.len() {
        lemma_digits_value_grows(text, n + 1);
        assert(text.take(n + 1).drop_last() =~= text.take(n));
    } else {
        assert(text.take(n) =~= text);
    }
}

/// Reads a numeral.
pub fn read_numeral(text: &str) -> (number: Option<usize>)
    ensures
        match numeral_value(text@, usize::MAX as nat) {
            Some(n) => number == Some(n as usize) && n <= usize::MAX,
            None => number is None,
        },
{
    let chars = chars_of(text);
    let mut at: usize = 0;
    if chars.len() > 0 && chars[0] == '+' {
        at = 1;
    }
    let ghost row = chars@.skip(at as int);
    let from: usize = at;
    assert(row == if text@.len() > 0 && text@.first() == '+' {
        text@.drop_first()
    } else {
        text@
    }) by {
        if at == 0 {
            assert(chars@.skip(0) =~= text@);
        } else {
            assert(chars@.skip(1) =~= text@.drop_first());
        }
    }
    if at == chars.len() {
        return None;
    }
    let mut value: usize = 0;
    assert(row.take(0) =~= Seq::<char>::empty());
    while at < chars.len()
        invariant
            from <= at <= chars@.len(),
            row == chars@.skip(from as int),
            all_digits(row.take(at - from)),
            value == digits_value(row.take(at - from)),
            row.len() > 0,
            numeral_value(text@, usize::MAX as nat) == (if row.len() > 0 && all_digits(row)
                && digits_value(row) <= usize::MAX {
                Some(digits_value(row))
            } else {
                None
            }),
        decreases chars@.len() - at,
    {
        let c = chars[at];
        assert(c == row[at - from]);
        assert(row.take(at - from + 1).drop_last() =~= row.take(at - from));
        if c < '0' || '9' < c {
            return None;
        }
        let digit: usize = c as usize - '0' as usize;
        proof {
            lemma_digits_value_grows(row, at - from + 1);
        }
        assert(digits_value(row.take(at - from + 1)) == value * 10 + digit);
        match value.checked_mul(10) {
            None => {
                return None;
            },
            Some(tens) => match tens.checked_add(digit) {
                None => {
                    return None;
                },
                Some(next) => {
                    value = next;
                },
            },
        }
        assert(all_digits(row.take(at - from + 1))) by {
            assert forall|i: int| 0 <= i < row.take(at - from + 1).len() implies '0'
                <= #[trigger] row.take(at - from + 1)[i] <= '9' by {
                if i < at - from {
                    assert(row.take(at - from)[i] == row.take(at - from + 1)[i]);
                }
            }
        }
        at += 1;
    }
    assert(row.take(at - from) =~= row);
    Some(value)
}

/// A number's numeral is made of digits and stands for that number.
pub proof fn lemma_decimal_reads_back(n: nat)
    ensures
        decimal(n).len() > 0,
        all_digits(decimal(n)),
        digits_value(decimal(n)) == n,
    decreases n,
{
    if n < 10 {
        assert(decimal(n).drop_last() =~= Seq::<char>::empty());
        assert(digits_value(Seq::<char>::empty()) == 0);
    } else {
        lemma_decimal_reads_back(n / 10);
        assert(decimal(n).drop_last() =~= decimal(n / 10));
        assert forall|i: int| 0 <= i < decimal(n).len() implies '0' <= #[trigger] decimal(n)[i]
            <= '9' by {
            if i < decimal(n / 10).len() {
                assert(decimal(n / 10)[i] == decimal(n)[i]);
            }
        }
    }
}

/// Reading the numeral of a number gives the number.
pub proof fn law_numeral_reads_back(n: nat, max: nat)
    requires
        n <= max,
    ensures
        numeral_value(decimal(n), max) == Some(n),
{
    lemma_decimal_reads_back(n);
    assert('0' <= decimal(n)[0] <= '9');
}

} // verus!
