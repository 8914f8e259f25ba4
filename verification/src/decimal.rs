//! Decimal numerals: the form in which file numbers stand in file names.

use vstd::prelude::*;
use vstd::string::*;

verus! {

/// The character of the digit `d`.
pub open spec fn digit_char(d: int) -> char {
    (d + 48) as char
}

/// Whether `c` is one of the characters `0` to `9`.
pub open spec fn is_digit(c: char) -> bool {
    48 <= c as u32 <= 57
}

/// The digit that the character `c` stands for.
pub open spec fn digit_value(c: char) -> int {
    c as u32 - 48
}

/// Whether `s` holds digits only.
pub open spec fn all_digits(s: Seq<char>) -> bool {
    forall|i: int| 0 <= i < s.len() ==> is_digit(#[trigger] s[i])
}

/// The number that the digits `s` denote, most significant digit first.
pub open spec fn decimal_value(s: Seq<char>) -> int
    decreases s.len(),
{
    if s.len() == 0 {
        0
    } else {
        decimal_value(s.drop_last()) * 10 + digit_value(s.last())
    }
}

/// The decimal numeral of `n`, without leading zeros.
pub open spec fn decimal(n: nat) -> Seq<char>
    decreases n,
{
    if n < 10 {
        seq![digit_char(n as int)]
    } else {
        decimal(n / 10).push(digit_char((n % 10) as int))
    }
}

/// The number that `s` denotes, if `s` is a run of one or more digits and
/// the number fits the machine word. Leading zeros are accepted.
pub open spec fn parse_decimal(s: Seq<char>) -> Option<usize> {
    if s.len() > 0 && all_digits(s) && decimal_value(s) <= usize::MAX {
        Some(decimal_value(s) as usize)
    } else {
        None
    }
}

/// The value of a run of digits is at least the value of each of its prefixes.
pub proof fn lemma_decimal_value_grows(s: Seq<char>, prefix: int)
    requires
        all_digits(s),
        0 <= prefix <= s.len(),
    ensures
        0 <= decimal_value(s.subrange(0, prefix)) <= decimal_value(s),
    decreases s.len() - prefix,
{
    let head = s.subrange(0, prefix);
    if prefix == 0 {
        lemma_decimal_value_nonnegative(s);
    } else {
        lemma_decimal_value_nonnegative(head);
    }
    if prefix < s.len() {
        let next = s.subrange(0, prefix + 1);
        assert(next.drop_last() =~= head);
        assert(is_digit(s[prefix]));
        lemma_decimal_value_grows(s, prefix + 1);
    } else {
        assert(head =~= s);
    }
}

/// A run of digits denotes no negative number.
proof fn lemma_decimal_value_nonnegative(s: Seq<char>)
    requires
        all_digits(s),
    ensures
        0 <= decimal_value(s),
    decreases s.len(),
{
    if s.len() > 0 {
        lemma_decimal_value_nonnegative(s.drop_last());
        assert(is_digit(s.last()));
    }
}

/// A numeral reads back as the number it was made from.
pub proof fn lemma_decimal_round_trip(n: nat)
    ensures
        decimal(n).len() > 0,
        all_digits(decimal(n)),
        decimal_value(decimal(n)) == n,
    decreases n,
{
    let s = decimal(n);
    let d = (n % 10) as int;
    assert(digit_value(digit_char(d)) == d);
    assert(is_digit(digit_char(d)));
    assert(s.last() == digit_char(d));
    if n < 10 {
        assert(s.drop_last() =~= Seq::<char>::empty());
        assert(decimal_value(s.drop_last()) == 0);
    } else {
        lemma_decimal_round_trip(n / 10);
        assert(s.drop_last() =~= decimal(n / 10));
    }
}

/// Parsing the numeral of a machine word gives the word back.
pub proof fn lemma_parse_decimal_of_decimal(n: usize)
    ensures
        parse_decimal(decimal(n as nat)) == Some(n),
{
    lemma_decimal_round_trip(n as nat);
}

/// The one-character string of the digit `d`.
fn digit_str(d: usize) -> (s: &'static str)
    requires
        d < 10,
    ensures
        s@ == seq![digit_char(d as int)],
{
    proof {
        reveal_strlit("0");
        reveal_strlit("1");
        reveal_strlit("2");
        reveal_strlit("3");
        reveal_strlit("4");
        reveal_strlit("5");
        reveal_strlit("6");
        reveal_strlit("7");
        reveal_strlit("8");
        reveal_strlit("9");
    }
    let s = match d {
        0 => "0",
        1 => "1",
        2 => "2",
        3 => "3",
        4 => "4",
        5 => "5",
        6 => "6",
        7 => "7",
        8 => "8",
        _ => "9",
    };
    assert(s@ =~= seq![digit_char(d as int)]);
    s
}

/// The decimal numeral of `n`.
pub fn to_decimal(n: usize) -> (s: String)
    ensures
        s@ == decimal(n as nat),
    decreases n,
{
    if n < 10 {
        String::from_str(digit_str(n))
    } else {
        let mut s = to_decimal(n / 10);
        s.append(digit_str(n % 10));
        assert(s@ =~= decimal(n as nat));
        s
    }
}

/// Reads a file number: a run of one or more digits whose value fits the
/// machine word. Anything else gives `None`.
pub fn parse_version(digits: &str) -> (r: Option<usize>)
    ensures
        r == parse_decimal(digits@),
{
    let len = digits.unicode_len();
    if len == 0 {
        return None;
    }
    let mut acc: usize = 0;
    let mut i: usize = 0;
    assert(digits@.subrange(0, 0) =~= Seq::<char>::empty());
    while i < len
        invariant
            len == digits@.len(),
            i <= len,
            all_digits(digits@.subrange(0, i as int)),
            acc == decimal_value(digits@.subrange(0, i as int)),
        decreases len - i,
    {
        let c = digits.get_char(i);
        let code = c as u32;
        let ghost head = digits@.subrange(0, i as int);
        let ghost next = digits@.subrange(0, i + 1);
        assert(next.drop_last() =~= head);
        if code < 48 || code > 57 {
            assert(!is_digit(digits@[i as int]));
            return None;
        }
        assert(all_digits(next)) by {
            assert forall|j: int| 0 <= j < next.len() implies is_digit(#[trigger] next[j]) by {
                if j < i {
                    assert(is_digit(head[j]));
                }
            }
        }
        let d = (code - 48) as usize;
        let shifted = match acc.checked_mul(10) {
            Some(shifted) => shifted,
            None => {
                proof {
                    if all_digits(digits@) {
                        lemma_decimal_value_grows(digits@, i + 1);
                    }
                }
                return None;
            },
        };
        acc = match shifted.checked_add(d) {
            Some(sum) => sum,
            None => {
                proof {
                    if all_digits(digits@) {
                        lemma_decimal_value_grows(digits@, i + 1);
                    }
                }
                return None;
            },
        };
        i = i + 1;
    }
    assert(digits@.subrange(0, len as int) =~= digits@);
    Some(acc)
}

} // verus!
