//! Reading the number of colours from text.

use vstd::prelude::*;

verus! {

/// Whether `c` is one of the ten decimal digits.
pub open spec fn is_digit(c: char) -> bool {
    '0' <= c <= '9'
}

/// The value of a decimal digit.
pub open spec fn digit_value(c: char) -> nat {
    (c as u32 - '0' as u32) as nat
}

/// Whether the text holds decimal digits only.
pub open spec fn all_digits(s: Seq<char>) -> bool {
    forall|i: int| 0 <= i < s.len() ==> is_digit(#[trigger] s[i])
}

/// The number that a run of decimal digits denotes.
pub open spec fn digits_value(s: Seq<char>) -> nat
    decreases s.len(),
{
    if s.len() == 0 {
        0
    } else {
        10 * digits_value(s.drop_last()) + digit_value(s.last())
    }
}

/// The text without a leading plus sign.
pub open spec fn unsigned_part(s: Seq<char>) -> Seq<char> {
    if s.len() > 0 && s[0] == '+' {
        s.subrange(1, s.len() as int)
    } else {
        s
    }
}

/// The number below 256 that a text denotes: an optional plus sign, then
/// one or more decimal digits and nothing else. Leading zeros are allowed.
pub open spec fn decimal_u8(s: Seq<char>) -> Option<u8> {
    let digits = unsigned_part(s);
    if digits.len() > 0 && all_digits(digits) && digits_value(digits) <= 255 {
        Some(digits_value(digits) as u8)
    } else {
        None
    }
}

/// Reads a number below 256 from decimal text.
pub fn parse_u8(input: &str) -> (value: Option<u8>)
    ensures
        value == decimal_u8(input@),
{
    let ghost s = input@;
    let ghost digits = unsigned_part(s);
    if !input.is_ascii() {
        proof {
            let at = choose|i: int| 0 <= i < s.len() && !('\0' <= #[trigger] s[i] <= '\u{7f}');
            if at == 0 {
                assert(!is_digit(digits[0]));
            } else if s[0] == '+' {
                assert(digits[at - 1] == s[at]);
                assert(!is_digit(digits[at - 1]));
            } else {
                assert(!is_digit(digits[at]));
            }
        }
        return None;
    }
    let bytes = input.as_bytes();
    proof {
        vstd::string::is_ascii_spec_bytes(input);
    }
    let n: usize = bytes.len();
    assert(n == s.len());
    assert(forall|i: int| 0 <= i < n ==> bytes@[i] == #[trigger] s[i] as u8);
    let start: usize = if n > 0 && bytes[0] == 43 {
        1
    } else {
        0
    };
    assert(digits =~= s.subrange(start as int, n as int)) by {
        if n > 0 {
            assert(bytes@[0] == s[0] as u8);
        }
    }
    if start == n {
        return None;
    }
    let mut acc: u32 = 0;
    let mut i: usize = start;
    assert(digits.subrange(0, 0) =~= Seq::<char>::empty());
    while i < n
        invariant
            start <= i <= n,
            s == input@,
            digits == unsigned_part(s),
            n == s.len(),
            n == bytes@.len(),
            digits == s.subrange(start as int, n as int),
            forall|j: int| 0 <= j < n ==> bytes@[j] == #[trigger] s[j] as u8,
            forall|j: int| 0 <= j < n ==> '\0' <= #[trigger] s[j] <= '\u{7f}',
            all_digits(digits.subrange(0, i - start)),
            acc <= 256,
            acc == if digits_value(digits.subrange(0, i - start)) <= 255 {
                digits_value(digits.subrange(0, i - start))
            } else {
                256
            },
        decreases n - i,
    {
        let b: u8 = bytes[i];
        assert(b == s[i as int] as u8);
        assert(digits[i - start] == s[i as int]);
        if b < 48 || b > 57 {
            assert(!is_digit(digits[i - start]));
            return None;
        }
        proof {
            let upto = digits.subrange(0, i - start + 1);
            assert(upto.drop_last() =~= digits.subrange(0, i - start));
            assert(upto.last() == digits[i - start]);
            assert(digit_value(upto.last()) == b - 48);
            assert forall|j: int| 0 <= j < upto.len() implies is_digit(#[trigger] upto[j]) by {
                if j < i - start {
                    assert(digits.subrange(0, i - start)[j] == upto[j]);
                }
            }
        }
        let next: u32 = acc * 10 + (b - 48) as u32;
        acc = if next > 255 {
            256
        } else {
            next
        };
        i = i + 1;
    }
    assert(digits.subrange(0, n - start) =~= digits);
    if acc > 255 {
        None
    } else {
        Some(acc as u8)
    }
}

} // verus!
