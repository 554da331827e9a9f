//! Decimal numerals: their value, their canonical text, and conversion in
//! both directions.
use vstd::prelude::*;

verus! {

pub open spec fn is_digit(c: char) -> bool {
    '0' <= c && c <= '9'
}

pub open spec fn all_digits(s: Seq<char>) -> bool {
    forall|i: int| 0 <= i < s.len() ==> is_digit(#[trigger] s[i])
}

pub open spec fn digit_value(c: char) -> nat {
    (c as int - '0' as int) as nat
}

/// The value of a numeral, most significant digit first.
pub open spec fn digits_value(s: Seq<char>) -> nat
    decreases s.len(),
{
    if s.len() == 0 {
        0
    } else {
        digits_value(s.drop_last()) * 10 + digit_value(s.last())
    }
}

pub open spec fn digit_char(d: nat) -> char {
    seq!['0', '1', '2', '3', '4', '5', '6', '7', '8', '9'][d as int]
}

/// The canonical decimal text of `n`: no leading zeros, `"0"` for zero.
pub open spec fn decimal(n: nat) -> Seq<char>
    decreases n,
{
    if n < 10 {
        seq![digit_char(n)]
    } else {
        decimal(n / 10).push(digit_char(n % 10))
    }
}

/// Why a text is not the numeral of a `u32`.
#[derive(Debug, PartialEq, Eq, Clone, Copy, Structural)]
pub enum NumberError {
    Empty,
    InvalidDigit,
    TooLarge,
}

/// What reading `s` as a `u32` numeral gives.
pub open spec fn number_of(s: Seq<char>) -> Result<u32, NumberError> {
    if s.len() == 0 {
        Err(NumberError::Empty)
    } else if !all_digits(s) {
        Err(NumberError::InvalidDigit)
    } else if digits_value(s) > u32::MAX {
        Err(NumberError::TooLarge)
    } else {
        Ok(digits_value(s) as u32)
    }
}

pub open spec fn number_error_text(e: NumberError) -> Seq<char> {
    match e {
        NumberError::Empty => "cannot parse integer from empty string"@,
        NumberError::InvalidDigit => "invalid digit found in string"@,
        NumberError::TooLarge => "number too large to fit in target type"@,
    }
}

pub proof fn lemma_digit_char(d: nat)
    requires
        d < 10,
    ensures
        is_digit(digit_char(d)),
        digit_value(digit_char(d)) == d,
{
    let ds = seq!['0', '1', '2', '3', '4', '5', '6', '7', '8', '9'];
    assert(ds[0] == '0' && ds[1] == '1' && ds[2] == '2' && ds[3] == '3' && ds[4] == '4');
    assert(ds[5] == '5' && ds[6] == '6' && ds[7] == '7' && ds[8] == '8' && ds[9] == '9');
}

pub proof fn lemma_decimal(n: nat)
    ensures
        decimal(n).len() > 0,
        all_digits(decimal(n)),
        digits_value(decimal(n)) == n,
    decreases n,
{
    let d = decimal(n);
    if n >= 10 {
        lemma_decimal(n / 10);
        lemma_digit_char(n % 10);
        assert(d.drop_last() =~= decimal(n / 10));
        assert(n == (n / 10) * 10 + n % 10);
        assert(digits_value(d) == digits_value(decimal(n / 10)) * 10 + digit_value(d.last()));
        assert forall|i: int| 0 <= i < d.len() implies is_digit(#[trigger] d[i]) by {
            if i < d.len() - 1 {
                assert(d[i] == decimal(n / 10)[i]);
            }
        }
    } else {
        lemma_digit_char(n);
        assert(d.drop_last() =~= Seq::<char>::empty());
        assert(digits_value(d.drop_last()) == 0);
    }
}

/// The text of an error met when reading a numeral.
pub fn number_error_message(e: NumberError) -> (r: &'static str)
    ensures
        r@ == number_error_text(e),
{
    match e {
        NumberError::Empty => "cannot parse integer from empty string",
        NumberError::InvalidDigit => "invalid digit found in string",
        NumberError::TooLarge => "number too large to fit in target type",
    }
}

/// Reads `text` as a decimal `u32`: digits only, no sign.
pub fn parse_u32(text: &str) -> (r: Result<u32, NumberError>)
    ensures
        r == number_of(text@),
{
    let n = text.unicode_len();
    if n == 0 {
        return Err(NumberError::Empty);
    }
    let mut i: usize = 0;
    while i < n
        invariant
            n == text@.len(),
            i <= n,
            forall|j: int| 0 <= j < i ==> is_digit(#[trigger] text@[j]),
        decreases n - i,
    {
        let c = text.get_char(i);
        if !('0' <= c && c <= '9') {
            return Err(NumberError::InvalidDigit);
        }
        i = i + 1;
    }
    let mut value: u64 = 0;
    let mut k: usize = 0;
    while k < n
        invariant
            n == text@.len(),
            k <= n,
            all_digits(text@),
            value == digits_value(text@.take(k as int)),
            value <= u32::MAX,
        decreases n - k,
    {
        let c = text.get_char(k);
        assert(text@.take(k + 1).drop_last() =~= text@.take(k as int));
        let next: u64 = value * 10 + (c as u64 - '0' as u64);
        if next > u32::MAX as u64 {
            proof {
                lemma_prefix_value_bound(text@, k + 1);
            }
            return Err(NumberError::TooLarge);
        }
        value = next;
        k = k + 1;
    }
    assert(text@.take(n as int) =~= text@);
    Ok(value as u32)
}

/// A numeral is worth at least as much as any of its prefixes.
pub proof fn lemma_prefix_value_bound(s: Seq<char>, k: int)
    requires
        0 <= k <= s.len(),
    ensures
        digits_value(s.take(k)) <= digits_value(s),
    decreases s.len() - k,
{
    if k < s.len() {
        lemma_prefix_value_bound(s, k + 1);
        assert(s.take(k + 1).drop_last() =~= s.take(k));
    } else {
        assert(s.take(k) =~= s);
    }
}

fn digit_str(d: u32) -> (r: &'static str)
    requires
        d < 10,
    ensures
        r@ == seq![digit_char(d as nat)],
{
    proof {
        reveal_strlit("0");
        reveal_strlit("1");
        reveal_strlit("2");
        reveal_strlit("3");
        reveal_strlit("4");
        reveal_strlit("5");
        reveal_strlit("6");
        reveal_strlit("7");
        reveal_strlit("8");
        reveal_strlit("9");
    }
    match d {
        0 => "0",
        1 => "1",
        2 => "2",
        3 => "3",
        4 => "4",
        5 => "5",
        6 => "6",
        7 => "7",
        8 => "8",
        _ => "9",
    }
}

/// Appends the canonical decimal text of `n` to `out`.
pub fn push_decimal(out: &mut String, n: u32)
    ensures
        final(out)@ == old(out)@ + decimal(n as nat),
    decreases n,
{
    if n < 10 {
        out.append(digit_str(n));
    } else {
        push_decimal(out, n / 10);
        out.append(digit_str(n % 10));
        assert(decimal(n as nat) =~= decimal((n / 10) as nat).push(digit_char((n % 10) as nat)));
    }
}

} // verus!
