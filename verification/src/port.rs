//! Reading a port number that was typed in.

use vstd::prelude::*;

verus! {

/// Whether a character is a decimal digit.
pub open spec fn is_digit(c: char) -> bool {
    '0' <= c <= '9'
}

/// Whether a text is made of decimal digits alone.
pub open spec fn all_digits(text: Seq<char>) -> bool {
    forall|i: int| 0 <= i < text.len() ==> is_digit(#[trigger] text[i])
}

/// The number that decimal digits stand for.
pub open spec fn digits_value(digits: Seq<char>) -> nat
    decreases digits.len(),
{
    if digits.len() == 0 {
        0
    } else {
        (10 * digits_value(digits.drop_last()) + (digits.last() as int - '0' as int)) as nat
    }
}

/// The digits of a text that may start with a plus sign.
pub open spec fn unsigned_part(text: Seq<char>) -> Seq<char> {
    if text.len() > 0 && text[0] == '+' {
        text.drop_first()
    } else {
        text
    }
}

/// The port number that a text stands for: at least one decimal digit, after at most one plus
/// sign, of a number that fits in 16 bits.
pub open spec fn port_number(text: Seq<char>) -> Option<u16> {
    let digits = unsigned_part(text);
    if digits.len() > 0 && all_digits(digits) && digits_value(digits) <= u16::MAX {
        Some(digits_value(digits) as u16)
    } else {
        None
    }
}

/// The decimal digits of a number, without leading zeros.
pub open spec fn decimal(n: nat) -> Seq<char>
    decreases n,
{
    let digit = ('0' as int + n % 10) as char;
    if n < 10 {
        seq![digit]
    } else {
        decimal(n / 10).push(digit)
    }
}

proof fn lemma_value_of_prefix(digits: Seq<char>, n: int)
    requires
        0 <= n <= digits.len(),
        all_digits(digits),
    ensures
        digits_value(digits.take(n)) <= digits_value(digits),
    decreases digits.len() - n,
{
    if n == digits.len() {
        assert(digits.take(n) =~= digits);
    } else {
        assert(digits.take(n + 1).drop_last() =~= digits.take(n));
        assert(is_digit(digits[n]));
        lemma_value_of_prefix(digits, n + 1);
    }
}

/// The port number that a text stands for, if it stands for one.
pub fn parse_port(text: &str) -> (port: Option<u16>)
    ensures
        port == port_number(text@),
{
    let ghost digits = unsigned_part(text@);
    let mut value: u32 = 0;
    let ghost mut count: int = 0;
    let mut first: bool = true;
    let mut any: bool = false;
    for c in iter: text.chars()
        invariant
            iter.seq() == text@,
            first == (iter.index() == 0),
            any == (count > 0),
            digits == unsigned_part(text@),
            iter.index() <= text@.len(),
            count == (if iter.index() > 0 && text@[0] == '+' {
                iter.index() - 1
            } else {
                iter.index()
            }),
            all_digits(digits.take(count)),
            value == digits_value(digits.take(count)),
            value <= u16::MAX,
    {
        let ghost n = count;
        if first && c == '+' {
            first = false;
        } else {
            first = false;
            assert(digits[n] == c);
            if c < '0' || c > '9' {
                assert(!is_digit(digits[n]));
                return None;
            }
            proof {
                assert(digits.take(n + 1).drop_last() =~= digits.take(n));
                assert(digits.take(n + 1).last() == c);
            }
            value = value * 10 + (c as u32 - '0' as u32);
            any = true;
            proof {
                count = count + 1;
            }
            if value > 65535 {
                proof {
                    if all_digits(digits) {
                        lemma_value_of_prefix(digits, n + 1);
                    }
                }
                return None;
            }
        }
    }
    assert(digits.take(count) =~= digits);
    if any {
        Some(value as u16)
    } else {
        None
    }
}

proof fn lemma_decimal_is_digits(n: nat)
    ensures
        decimal(n).len() > 0,
        all_digits(decimal(n)),
        digits_value(decimal(n)) == n,
    decreases n,
{
    let digit = ('0' as int + n % 10) as char;
    if n < 10 {
        assert(seq![digit].drop_last() =~= Seq::<char>::empty());
        reveal_with_fuel(digits_value, 2);
    } else {
        lemma_decimal_is_digits(n / 10);
        assert(decimal(n).drop_last() =~= decimal(n / 10));
    }
}

/// Every port can be typed in, with and without a plus sign: its decimal digits are read as it.
pub proof fn lemma_decimal_port_is_read_back(port: u16)
    ensures
        port_number(decimal(port as nat)) == Some(port),
        port_number(seq!['+'] + decimal(port as nat)) == Some(port),
{
    lemma_decimal_is_digits(port as nat);
    assert(is_digit(decimal(port as nat)[0]));
    assert((seq!['+'] + decimal(port as nat)).drop_first() =~= decimal(port as nat));
}

/// What one more character makes of a text: the first digit, after at most one plus sign, is a port,
/// each further digit makes ten times the port and the digit of it as long as that fits in 16 bits,
/// and from any other character on there is no port, nor after a text of digits that is none.
pub proof fn lemma_port_grows_by_a_digit(text: Seq<char>, c: char)
    ensures
        port_number(Seq::empty()) is None,
        port_number(seq!['+']) is None,
        text.len() == 0 || text == seq!['+'] ==> port_number(text.push(c)) == if '0' <= c <= '9' {
            Some((c as int - '0' as int) as u16)
        } else {
            None::<u16>
        },
        text.len() > 0 && text != seq!['+'] ==> port_number(text.push(c)) == match port_number(
            text,
        ) {
            Some(port) => if '0' <= c <= '9' && 10 * port + (c as int - '0' as int) <= 65_535 {
                Some((10 * port + (c as int - '0' as int)) as u16)
            } else {
                None::<u16>
            },
            None => None::<u16>,
        },
{
    assert(unsigned_part(seq!['+']) =~= Seq::<char>::empty());
    let longer = text.push(c);
    let digits = unsigned_part(text);
    let more = unsigned_part(longer);
    if text.len() == 0 && c == '+' {
        assert(longer =~= seq!['+']);
    } else {
        assert(more =~= digits.push(c));
        assert(more.drop_last() =~= digits);
        assert(more[digits.len() as int] == c);
        if text.len() == 0 || text == seq!['+'] {
            assert(digits =~= Seq::<char>::empty());
            assert(digits_value(digits) == 0);
            assert(all_digits(more) <==> is_digit(c)) by {
                if is_digit(c) {
                    assert forall|i: int| 0 <= i < more.len() implies is_digit(
                        #[trigger] more[i],
                    ) by {
                        assert(more[i] == c);
                    }
                }
            }
        } else {
            if digits.len() == 0 {
                assert(text =~= seq!['+']);
            }
            assert(all_digits(more) <==> all_digits(digits) && is_digit(c)) by {
                if all_digits(more) {
                    assert forall|i: int| 0 <= i < digits.len() implies is_digit(
                        #[trigger] digits[i],
                    ) by {
                        assert(more[i] == digits[i]);
                    }
                } else if is_digit(c) {
                    let i = choose|i: int| 0 <= i < more.len() && !is_digit(#[trigger] more[i]);
                    assert(digits[i] == more[i]);
                }
            }
        }
    }
}

} // verus!
