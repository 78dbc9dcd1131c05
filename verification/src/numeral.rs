//! Decimal numerals.
use vstd::prelude::*;

verus! {

/// The value of an ASCII decimal digit.
pub open spec fn digit(code: int) -> Option<nat> {
    if 0x30 <= code <= 0x39 {
        Some((code - 0x30) as nat)
    } else {
        None
    }
}

/// Every code is an ASCII decimal digit, and there is at least one.
pub open spec fn all_digits(codes: Seq<int>) -> bool {
    &&& codes.len() > 0
    &&& forall|index: int| 0 <= index < codes.len() ==> 0x30 <= #[trigger] codes[index] <= 0x39
}

/// The number that a run of decimal digits stands for.
pub open spec fn digits_value(codes: Seq<int>) -> nat
    decreases codes.len(),
{
    if codes.len() == 0 {
        0
    } else {
        10 * digits_value(codes.drop_last()) + (codes.last() - 0x30) as nat
    }
}

/// The code points of a text.
pub open spec fn codes_of_chars(text: Seq<char>) -> Seq<int> {
    Seq::new(text.len(), |index: int| text[index] as u32 as int)
}

/// The bytes as integers.
pub open spec fn codes_of_bytes(bytes: Seq<u8>) -> Seq<int> {
    Seq::new(bytes.len(), |index: int| bytes[index] as int)
}

/// The shortest decimal numeral of a number.
pub open spec fn decimal(value: nat) -> Seq<int>
    decreases value,
{
    if value < 10 {
        seq![0x30 + value as int]
    } else {
        decimal(value / 10).push(0x30 + (value % 10) as int)
    }
}

/// A decimal numeral is made of digits and has the value that it was made from.
pub proof fn decimal_round_trip(value: nat)
    ensures
        all_digits(decimal(value)),
        digits_value(decimal(value)) == value,
    decreases value,
{
    if value < 10 {
        assert(decimal(value).drop_last() =~= Seq::<int>::empty());
        reveal_with_fuel(digits_value, 2);
    } else {
        decimal_round_trip(value / 10);
        assert(decimal(value).drop_last() =~= decimal(value / 10));
    }
}

/// An unsigned integer as `str::parse` reads it: an optional plus sign, then digits only.
pub open spec fn unsigned(codes: Seq<int>) -> Option<nat> {
    let digits = if codes.len() > 0 && codes[0] == 0x2b {
        codes.drop_first()
    } else {
        codes
    };
    if all_digits(digits) {
        Some(digits_value(digits))
    } else {
        None
    }
}

/// A signed integer as `str::parse` reads it: an optional sign, then digits only.
pub open spec fn signed(codes: Seq<int>) -> Option<int> {
    if codes.len() > 0 && codes[0] == 0x2d {
        if all_digits(codes.drop_first()) {
            Some(-(digits_value(codes.drop_first()) as int))
        } else {
            None
        }
    } else {
        match unsigned(codes) {
            Some(value) => Some(value as int),
            None => None,
        }
    }
}

proof fn lemma_value_grows(codes: Seq<int>, length: int)
    requires
        all_digits(codes),
        0 <= length <= codes.len(),
    ensures
        digits_value(codes.take(length)) <= digits_value(codes),
    decreases codes.len() - length,
{
    if length == codes.len() {
        assert(codes.take(length) =~= codes);
    } else {
        lemma_value_grows(codes, length + 1);
        assert(codes.take(length + 1).drop_last() =~= codes.take(length));
        assert(codes.take(length + 1).last() == codes[length]);
    }
}

/// Reads the digits from `start` on, as long as their value does not exceed `limit`.
fn read_digits(codes: &[u32], start: usize, limit: u64) -> (value: Option<u64>)
    requires
        start <= codes@.len(),
    ensures
        value == (if all_digits(digits_from(codes@, start as int)) && digits_value(
            digits_from(codes@, start as int),
        ) <= limit {
            Some(digits_value(digits_from(codes@, start as int)) as u64)
        } else {
            None
        }),
{
    if start == codes.len() {
        return None;
    }
    let ghost digits = digits_from(codes@, start as int);
    let mut value: u64 = 0;
    let mut position: usize = start;
    while position < codes.len()
        invariant
            start <= position <= codes@.len(),
            digits == digits_from(codes@, start as int),
            forall|index: int| 0 <= index < position - start ==> 0x30 <= #[trigger] digits[index] <= 0x39,
            value == digits_value(digits.take(position - start)),
            value <= limit,
        decreases codes@.len() - position,
    {
        let code: u32 = codes[position];
        assert(digits[position - start] == code);
        if code < 0x30 || code > 0x39 {
            return None;
        }
        assert(digits.take(position + 1 - start).drop_last() =~= digits.take(position - start));
        assert(digits_value(digits.take(position + 1 - start)) == 10 * value + (code - 0x30));
        let next: u128 = value as u128 * 10 + (code - 0x30) as u128;
        if next > limit as u128 {
            proof {
                if all_digits(digits) {
                    lemma_value_grows(digits, position + 1 - start);
                }
            }
            return None;
        }
        value = next as u64;
        position = position + 1;
    }
    assert(digits.take(digits.len() as int) =~= digits);
    Some(value)
}

/// The codes from `start` on.
pub open spec fn digits_from(codes: Seq<u32>, start: int) -> Seq<int> {
    Seq::new((codes.len() - start) as nat, |index: int| codes[start + index] as int)
}

fn char_codes(text: &[char]) -> (codes: Vec<u32>)
    ensures
        codes@.len() == text@.len(),
        forall|index: int|
            0 <= index < text@.len() ==> #[trigger] codes@[index] == text@[index] as u32,
{
    let mut codes: Vec<u32> = Vec::new();
    for index in 0..text.len()
        invariant
            codes@.len() == index,
            forall|earlier: int|
                0 <= earlier < index ==> #[trigger] codes@[earlier] == text@[earlier] as u32,
    {
        let character: char = text[index];
        codes.push(character as u32);
    }
    codes
}

fn byte_codes(bytes: &[u8]) -> (codes: Vec<u32>)
    ensures
        codes@.len() == bytes@.len(),
        forall|index: int| 0 <= index < bytes@.len() ==> #[trigger] codes@[index] == bytes@[index] as u32,
{
    let mut codes: Vec<u32> = Vec::new();
    for index in 0..bytes.len()
        invariant
            codes@.len() == index,
            forall|earlier: int|
                0 <= earlier < index ==> #[trigger] codes@[earlier] == bytes@[earlier] as u32,
    {
        codes.push(bytes[index] as u32);
    }
    codes
}

/// Reads a run of ASCII digits that stands for a number up to `limit`.
pub fn parse_digits(bytes: &[u8], limit: u64) -> (value: Option<u64>)
    ensures
        value == (if all_digits(codes_of_bytes(bytes@)) && digits_value(codes_of_bytes(bytes@))
            <= limit {
            Some(digits_value(codes_of_bytes(bytes@)) as u64)
        } else {
            None
        }),
{
    let codes = byte_codes(bytes);
    assert(digits_from(codes@, 0) =~= codes_of_bytes(bytes@));
    read_digits(codes.as_slice(), 0, limit)
}

/// Reads an unsigned integer up to `limit`.
pub fn parse_unsigned_bytes(bytes: &[u8], limit: u64) -> (value: Option<u64>)
    ensures
        value == match unsigned(codes_of_bytes(bytes@)) {
            Some(number) => if number <= limit {
                Some(number as u64)
            } else {
                None
            },
            None => None,
        },
{
    let codes = byte_codes(bytes);
    let ghost numeral = codes_of_bytes(bytes@);
    if codes.len() > 0 && codes[0] == 0x2b {
        assert(digits_from(codes@, 1) =~= numeral.drop_first());
        read_digits(codes.as_slice(), 1, limit)
    } else {
        assert(digits_from(codes@, 0) =~= numeral);
        read_digits(codes.as_slice(), 0, limit)
    }
}

/// Reads an unsigned integer up to `limit`.
pub fn parse_unsigned(text: &[char], limit: u64) -> (value: Option<u64>)
    ensures
        value == match unsigned(codes_of_chars(text@)) {
            Some(number) => if number <= limit {
                Some(number as u64)
            } else {
                None
            },
            None => None,
        },
{
    let codes = char_codes(text);
    let ghost numeral = codes_of_chars(text@);
    if codes.len() > 0 && codes[0] == 0x2b {
        assert(digits_from(codes@, 1) =~= numeral.drop_first());
        read_digits(codes.as_slice(), 1, limit)
    } else {
        assert(digits_from(codes@, 0) =~= numeral);
        read_digits(codes.as_slice(), 0, limit)
    }
}

/// Reads a signed 32-bit integer.
pub fn parse_i32(text: &[char]) -> (value: Option<i32>)
    ensures
        value == match signed(codes_of_chars(text@)) {
            Some(number) => if i32::MIN <= number <= i32::MAX {
                Some(number as i32)
            } else {
                None
            },
            None => None,
        },
{
    let ghost numeral = codes_of_chars(text@);
    let codes = char_codes(text);
    if codes.len() > 0 && codes[0] == 0x2d {
        assert(digits_from(codes@, 1) =~= numeral.drop_first());
        match read_digits(codes.as_slice(), 1, 0x8000_0000) {
            Some(magnitude) => Some((0 - magnitude as i64) as i32),
            None => None,
        }
    } else {
        match parse_unsigned(text, 0x7fff_ffff) {
            Some(number) => Some(number as i32),
            None => None,
        }
    }
}

/// The decimal numeral of a number, as ASCII digits.
pub open spec fn decimal_bytes(value: nat) -> Seq<u8> {
    Seq::new(decimal(value).len(), |index: int| decimal(value)[index] as u8)
}

/// The decimal numeral of a number, as characters.
pub open spec fn decimal_chars(value: nat) -> Seq<char> {
    Seq::new(decimal(value).len(), |index: int| decimal(value)[index] as char)
}

/// Appends the decimal numeral of `value`.
pub fn push_decimal(output: &mut Vec<u8>, value: u64)
    ensures
        final(output)@ == old(output)@ + decimal_bytes(value as nat),
    decreases value,
{
    let ghost before = output@;
    proof {
        decimal_round_trip(value as nat);
    }
    if value < 10 {
        output.push(0x30 + value as u8);
        assert(output@ =~= before + decimal_bytes(value as nat));
    } else {
        push_decimal(output, value / 10);
        output.push(0x30 + (value % 10) as u8);
        assert(output@ =~= before + decimal_bytes(value as nat));
    }
}

/// Appends the decimal numeral of `value`.
pub fn append_decimal(output: &mut String, value: u64)
    ensures
        final(output)@ == old(output)@ + decimal_chars(value as nat),
    decreases value,
{
    let ghost before = output@;
    proof {
        decimal_round_trip(value as nat);
    }
    if value < 10 {
        let code: u8 = 0x30 + value as u8;
        output.push(code as char);
        assert(output@ =~= before + decimal_chars(value as nat));
    } else {
        append_decimal(output, value / 10);
        let code: u8 = 0x30 + (value % 10) as u8;
        output.push(code as char);
        assert(output@ =~= before + decimal_chars(value as nat));
    }
}

} // verus!
