//! Decimal numerals: how numbers are written and read back.
use vstd::prelude::*;

verus! {

pub open spec fn is_digit(c: char) -> bool {
    '0' <= c && c <= '9'
}

pub open spec fn digit_value(c: char) -> nat {
    (c as nat - '0' as nat) as nat
}

pub open spec fn digit_char(d: nat) -> char {
    ((d + 48) as u32) as char
}

pub open spec fn all_digits(s: Seq<char>) -> bool {
    forall|i: int| 0 <= i < s.len() ==> is_digit(#[trigger] s[i])
}

/// The number that a sequence of digits denotes.
pub open spec fn decimal_value(s: Seq<char>) -> nat
    decreases s.len(),
{
    if s.len() == 0 {
        0
    } else {
        decimal_value(s.drop_last()) * 10 + digit_value(s.last())
    }
}

/// `n` written in decimal, without leading zeros.
pub open spec fn decimal_text(n: nat) -> Seq<char>
    decreases n,
{
    if n < 10 {
        seq![digit_char(n)]
    } else {
        decimal_text(n / 10).push(digit_char(n % 10))
    }
}

/// What an unsigned integer with the largest value `max` reads from `s`: one
/// optional plus sign, then one or more digits, if the number fits.
pub open spec fn parse_unsigned(s: Seq<char>, max: nat) -> Option<nat> {
    let digits = if s.len() > 0 && s[0] == '+' {
        s.drop_first()
    } else {
        s
    };
    if digits.len() > 0 && all_digits(digits) && decimal_value(digits) <= max {
        Some(decimal_value(digits))
    } else {
        None
    }
}

/// What a signed 32-bit integer reads from `s`.
pub open spec fn parse_signed_32(s: Seq<char>) -> Option<int> {
    if s.len() > 0 && s[0] == '-' {
        let digits = s.drop_first();
        if digits.len() > 0 && all_digits(digits) && decimal_value(digits) <= 0x8000_0000 {
            Some(-(decimal_value(digits) as int))
        } else {
            None
        }
    } else {
        match parse_unsigned(s, 0x7fff_ffff) {
            Some(n) => Some(n as int),
            None => None,
        }
    }
}

pub proof fn lemma_decimal_text(n: nat)
    ensures
        decimal_text(n).len() > 0,
        all_digits(decimal_text(n)),
        decimal_value(decimal_text(n)) == n,
    decreases n,
{
    if n < 10 {
        let s = decimal_text(n);
        assert(s.drop_last() =~= Seq::<char>::empty());
        assert(decimal_value(s.drop_last()) == 0);
    } else {
        lemma_decimal_text(n / 10);
        let s = decimal_text(n);
        assert(s.drop_last() =~= decimal_text(n / 10));
    }
}

/// A numeral reads back as the number that was written.
pub proof fn lemma_decimal_round_trip(n: nat, max: nat)
    requires
        n <= max,
    ensures
        parse_unsigned(decimal_text(n), max) == Some(n),
{
    lemma_decimal_text(n);
    assert(is_digit(decimal_text(n)[0]));
}

/// Different numbers have different numerals.
pub proof fn lemma_decimal_text_injective(a: nat, b: nat)
    requires
        decimal_text(a) == decimal_text(b),
    ensures
        a == b,
{
    lemma_decimal_text(a);
    lemma_decimal_text(b);
}

proof fn lemma_decimal_prefix(s: Seq<char>, k: int)
    requires
        0 <= k <= s.len(),
    ensures
        decimal_value(s.take(k)) <= decimal_value(s),
    decreases s.len() - k,
{
    if k < s.len() {
        lemma_decimal_prefix(s, k + 1);
        assert(s.take(k + 1).drop_last() =~= s.take(k));
    } else {
        assert(s.take(k) =~= s);
    }
}

/// Reads `chars[from..]` as digits only; `None` where a character is no digit,
/// there is none, or the number exceeds `max`.
pub fn read_digits(chars: &[char], from: usize, max: u64) -> (r: Option<u64>)
    requires
        from <= chars@.len(),
    ensures
        match r {
            Some(n) => {
                let digits = chars@.skip(from as int);
                digits.len() > 0 && all_digits(digits) && decimal_value(digits) == n && n <= max
            },
            None => {
                let digits = chars@.skip(from as int);
                digits.len() == 0 || !all_digits(digits) || decimal_value(digits) > max
            },
        },
{
    let ghost digits = chars@.skip(from as int);
    if from == chars.len() {
        return None;
    }
    let mut value: u64 = 0;
    let mut over = false;
    let mut i: usize = from;
    while i < chars.len()
        invariant
            from <= i <= chars@.len(),
            digits == chars@.skip(from as int),
            forall|j: int| 0 <= j < i - from ==> is_digit(#[trigger] digits[j]),
            !over ==> value == decimal_value(digits.take(i - from)) && value <= max,
            over ==> exists|k: int|
                0 <= k <= i - from && decimal_value(#[trigger] digits.take(k)) > max,
            i == from ==> !over && value == 0,
        decreases chars@.len() - i,
    {
        let c = chars[i];
        assert(digits[i - from] == c);
        if !('0' <= c && c <= '9') {
            assert(!is_digit(digits[i - from]));
            return None;
        }
        let d: u64 = (c as u64) - 48;
        proof {
            assert(digits.take(i - from + 1).drop_last() =~= digits.take(i - from));
            assert(digits.take(i - from + 1).last() == c);
        }
        if !over {
            match value.checked_mul(10) {
                Some(tens) => {
                    match tens.checked_add(d) {
                        Some(next) => {
                            if next <= max {
                                value = next;
                            } else {
                                over = true;
                                assert(decimal_value(digits.take(i - from + 1)) > max);
                            }
                        },
                        None => {
                            over = true;
                            assert(decimal_value(digits.take(i - from + 1)) > max);
                        },
                    }
                },
                None => {
                    over = true;
                    assert(decimal_value(digits.take(i - from + 1)) > max);
                },
            }
        }
        i += 1;
    }
    proof {
        assert(digits.take(digits.len() as int) =~= digits);
        if over {
            let k = choose|k: int|
                0 <= k <= i - from && decimal_value(#[trigger] digits.take(k)) > max;
            lemma_decimal_prefix(digits, k);
        }
        assert forall|j: int| 0 <= j < digits.len() implies is_digit(#[trigger] digits[j]) by {}
    }
    if over {
        None
    } else {
        Some(value)
    }
}

/// Reads an unsigned number up to `max`.
pub fn read_unsigned(chars: &[char], max: u64) -> (r: Option<u64>)
    ensures
        match r {
            Some(n) => parse_unsigned(chars@, max as nat) == Some(n as nat),
            None => parse_unsigned(chars@, max as nat) is None,
        },
{
    let from: usize = if chars.len() > 0 && chars[0] == '+' {
        1
    } else {
        0
    };
    proof {
        assert(chars@.skip(0) =~= chars@);
        if chars@.len() > 0 {
            assert(chars@.skip(1) =~= chars@.drop_first());
        }
    }
    read_digits(chars, from, max)
}

/// Reads a signed 32-bit number.
pub fn read_signed_32(chars: &[char]) -> (r: Option<i32>)
    ensures
        match r {
            Some(n) => parse_signed_32(chars@) == Some(n as int),
            None => parse_signed_32(chars@) is None,
        },
{
    if chars.len() > 0 && chars[0] == '-' {
        proof {
            assert(chars@.skip(1) =~= chars@.drop_first());
        }
        match read_digits(chars, 1, 0x8000_0000) {
            Some(n) => {
                if n == 0x8000_0000 {
                    Some(i32::MIN)
                } else {
                    let m: i32 = n as i32;
                    Some(-m)
                }
            },
            None => None,
        }
    } else {
        match read_unsigned(chars, 0x7fff_ffff) {
            Some(n) => Some(n as i32),
            None => None,
        }
    }
}

/// `n` in decimal.
pub fn write_decimal(n: u64) -> (out: Vec<char>)
    ensures
        out@ == decimal_text(n as nat),
    decreases n,
{
    if n < 10 {
        let mut out: Vec<char> = Vec::new();
        out.push((n as u8 + 48) as char);
        proof {
            assert(out@ =~= decimal_text(n as nat));
        }
        out
    } else {
        let mut out = write_decimal(n / 10);
        out.push(((n % 10) as u8 + 48) as char);
        out
    }
}

} // verus!
