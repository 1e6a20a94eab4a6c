//! The text of ranges: `start..=end`, joined by a comma and a space.

use crate::integer::Integer;
use crate::sorted_disjoint::as_ints;
use vstd::prelude::*;
use vstd::string::StringExecFns;

verus! {

/// The character of the decimal digit `d`.
pub open spec fn digit_char(d: int) -> char {
    if d == 0 {
        '0'
    } else if d == 1 {
        '1'
    } else if d == 2 {
        '2'
    } else if d == 3 {
        '3'
    } else if d == 4 {
        '4'
    } else if d == 5 {
        '5'
    } else if d == 6 {
        '6'
    } else if d == 7 {
        '7'
    } else if d == 8 {
        '8'
    } else {
        '9'
    }
}

/// The decimal digits of the natural number `n`, without leading zeros.
pub open spec fn digits(n: nat) -> Seq<char>
    decreases n,
{
    if n < 10 {
        seq![digit_char(n as int)]
    } else {
        digits(n / 10).push(digit_char((n % 10) as int))
    }
}

/// The decimal text of the integer `x`, with a minus sign if it is negative.
pub open spec fn decimal(x: int) -> Seq<char> {
    if x < 0 {
        seq!['-'] + digits((-x) as nat)
    } else {
        digits(x as nat)
    }
}

/// The text of the range `r`: its start, `..=`, and its end.
pub open spec fn range_text(r: (int, int)) -> Seq<char> {
    decimal(r.0) + seq!['.', '.', '='] + decimal(r.1)
}

/// The text of the ranges `s`: the text of each, joined by a comma and a
/// space.
pub open spec fn ranges_text(s: Seq<(int, int)>) -> Seq<char>
    decreases s.len(),
{
    if s.len() == 0 {
        Seq::empty()
    } else if s.len() == 1 {
        range_text(s[0])
    } else {
        ranges_text(s.drop_last()) + seq![',', ' '] + range_text(s.last())
    }
}

/// The text of one decimal digit.
fn digit_str(d: u128) -> (s: &'static str)
    requires
        d < 10,
    ensures
        s@ == seq![digit_char(d as int)],
{
    proof {
        reveal_strlit("0");
        reveal_strlit("1");
        reveal_strlit("2");
        reveal_strlit("3");
        reveal_strlit("4");
        reveal_strlit("5");
        reveal_strlit("6");
        reveal_strlit("7");
        reveal_strlit("8");
        reveal_strlit("9");
    }
    let s = if d == 0 {
        "0"
    } else if d == 1 {
        "1"
    } else if d == 2 {
        "2"
    } else if d == 3 {
        "3"
    } else if d == 4 {
        "4"
    } else if d == 5 {
        "5"
    } else if d == 6 {
        "6"
    } else if d == 7 {
        "7"
    } else if d == 8 {
        "8"
    } else {
        "9"
    };
    assert(s@ =~= seq![digit_char(d as int)]);
    s
}

/// Appends the decimal digits of `n` to `text`.
fn push_digits(text: &mut String, n: u128)
    ensures
        final(text)@ == old(text)@ + digits(n as nat),
    decreases n,
{
    if n >= 10 {
        push_digits(text, n / 10);
    }
    text.append(digit_str(n % 10));
    proof {
        if n >= 10 {
            assert(final(text)@ =~= old(text)@ + digits(n as nat));
        } else {
            assert(final(text)@ =~= old(text)@ + digits(n as nat));
        }
    }
}

/// Appends the decimal text of `value` to `text`.
pub fn push_decimal<T: Integer>(text: &mut String, value: T)
    ensures
        final(text)@ == old(text)@ + decimal(value.as_int()),
{
    let (negative, magnitude) = value.sign_and_magnitude();
    if negative {
        proof {
            reveal_strlit("-");
        }
        text.append("-");
    }
    push_digits(text, magnitude);
    proof {
        assert(final(text)@ =~= old(text)@ + decimal(value.as_int()));
    }
}

/// Appends the text of `range` to `text`.
pub fn push_range<T: Integer>(text: &mut String, range: (T, T))
    ensures
        final(text)@ == old(text)@ + range_text(as_ints(range)),
{
    push_decimal(text, range.0);
    proof {
        reveal_strlit("..=");
    }
    text.append("..=");
    push_decimal(text, range.1);
    proof {
        assert("..="@ =~= seq!['.', '.', '=']);
        assert(final(text)@ =~= old(text)@ + range_text(as_ints(range)));
    }
}

/// The text of the stream of ranges `iter`: its ranges as `start..=end`,
/// joined by a comma and a space. The stream is used up.
pub fn ranges_to_string<T: Integer, I: crate::sorted_disjoint::RangeIter<T>>(iter: I) -> (r: String)
    requires
        iter.inv(),
    ensures
        r@ == ranges_text(iter.remaining()),
{
    let ghost all = iter.remaining();
    let mut stream = iter;
    let mut text = String::new();
    let mut first = true;
    let ghost done = Seq::<(int, int)>::empty();
    loop
        invariant
            stream.inv(),
            done + stream.remaining() == all,
            first == (done.len() == 0),
            text@ == ranges_text(done),
        ensures
            text@ == ranges_text(all),
        decreases stream.remaining().len(),
    {
        match stream.next() {
            Some(range) => {
                let ghost so_far = text@;
                if !first {
                    proof {
                        reveal_strlit(", ");
                    }
                    text.append(", ");
                }
                push_range(&mut text, range);
                proof {
                    let longer = done.push(as_ints(range));
                    assert(longer.drop_last() =~= done);
                    reveal_strlit(", ");
                    assert(", "@ =~= seq![',', ' ']);
                    if first {
                        assert(so_far =~= Seq::empty());
                        assert(text@ =~= range_text(longer[0]));
                    } else {
                        assert(text@ =~= so_far + seq![',', ' '] + range_text(as_ints(range)));
                    }
                    done = longer;
                    assert(done + stream.remaining() =~= all);
                }
                first = false;
            },
            None => {
                proof {
                    assert(done =~= all);
                }
                break ;
            },
        }
    }
    text
}

/// The text of a range that may be missing: `Some(start..=end)` or `None`.
pub open spec fn option_range_text(r: Option<(int, int)>) -> Seq<char> {
    match r {
        Some(range) => seq!['S', 'o', 'm', 'e', '('] + range_text(range) + seq![')'],
        None => seq!['N', 'o', 'n', 'e'],
    }
}

} // verus!
