//! The numeric encoder: a string of digits becomes a mode indicator, a
//! character count, and the digits in groups of three.

use crate::bits::{max_bits, value_bits, BitBuffer};
use crate::capacity::{Capacity, CapacityView};
use crate::encoder::{result_bits, EncodeError};
use vstd::arithmetic::power2::{lemma2_to64, lemma_pow2_strictly_increases, pow2};
use vstd::prelude::*;
use vstd::slice::slice_subrange;
use vstd::string::StringSliceAdditionalSpecFns;
use vstd::utf8::{
    encode_scalar, encode_utf8, has_width_1_encoding, has_width_2_encoding,
    has_width_3_encoding,
};

verus! {

/// Whether a byte is one of the ASCII digits `0` to `9`.
pub open spec fn is_digit(byte: u8) -> bool {
    0x30 <= byte <= 0x39
}

/// The position of the first byte that is no digit, if there is one.
pub open spec fn first_non_digit(bytes: Seq<u8>) -> Option<int>
    decreases bytes.len(),
{
    if bytes.len() == 0 {
        None
    } else {
        match first_non_digit(bytes.drop_last()) {
            Some(position) => Some(position),
            None => if is_digit(bytes.last()) {
                None
            } else {
                Some(bytes.len() - 1)
            },
        }
    }
}

/// The number that a run of digits spells in decimal.
pub open spec fn decimal_value(digits: Seq<u8>) -> nat
    decreases digits.len(),
{
    if digits.len() == 0 {
        0
    } else {
        10 * decimal_value(digits.drop_last()) + (digits.last() - 0x30) as nat
    }
}

/// The width in bits of the code of a group of `digits` digits.
pub open spec fn group_width(digits: nat) -> nat {
    if digits == 1 {
        4
    } else if digits == 2 {
        7
    } else {
        10
    }
}

/// The code of one group of one to three digits: its decimal value in as
/// many bits as the group's size asks for.
pub open spec fn group_bits(group: Seq<u8>) -> Seq<bool> {
    value_bits(decimal_value(group), group_width(group.len()))
}

/// What encoding one group gives: its code, or the position in the group of
/// the first byte that is no digit.
pub open spec fn group_code(group: Seq<u8>) -> Result<Seq<bool>, EncodeError> {
    match first_non_digit(group) {
        Some(position) => Err(EncodeError::InvalidDigit { position: position as usize }),
        None => Ok(group_bits(group)),
    }
}

/// The number of groups that `digits` digits are split into.
pub open spec fn group_count(digits: nat) -> nat {
    (digits + 2) / 3
}

/// Group `g` of a digit string: three digits, or the one or two that are
/// left at the end.
pub open spec fn digit_group(digits: Seq<u8>, g: int) -> Seq<u8> {
    digits.subrange(3 * g, if 3 * g + 3 <= digits.len() {
        3 * g + 3
    } else {
        digits.len() as int
    })
}

/// The codes of all groups of a digit string, in order.
pub open spec fn digit_groups(digits: Seq<u8>) -> Seq<Seq<bool>> {
    Seq::new(group_count(digits.len()), |g: int| group_bits(digit_group(digits, g)))
}

/// The data bits of a digit string: the codes of its groups, one after the
/// other.
pub open spec fn digits_bits(digits: Seq<u8>) -> Seq<bool> {
    digit_groups(digits).flatten()
}

/// The number of data bits that `digits` digits encode to.
pub open spec fn numeric_bits_len(digits: nat) -> nat {
    10 * (digits / 3) + if digits % 3 == 1 {
        4nat
    } else if digits % 3 == 2 {
        7nat
    } else {
        0nat
    }
}

/// Whether a character count can be written in `width` bits.
pub open spec fn count_fits(count: nat, width: nat) -> bool {
    count < pow2(width)
}

/// The length in bits of the encoding of `digits` digits, indicators
/// included, before padding.
pub open spec fn numeric_len(capacity: CapacityView, digits: nat) -> nat {
    capacity.mode_indicator_bits.len() + capacity.count_indicator_width + numeric_bits_len(
        digits,
    )
}

/// What the numeric encoder gives for a payload: mode indicator, character
/// count and group codes, or the reason why not.
pub open spec fn encode_number_spec(capacity: CapacityView, payload: Seq<u8>) -> Result<
    Seq<bool>,
    EncodeError,
> {
    match first_non_digit(payload) {
        Some(position) => Err(EncodeError::InvalidDigit { position: position as usize }),
        None => if count_fits(payload.len(), capacity.count_indicator_width) {
            Ok(
                capacity.mode_indicator_bits + value_bits(
                    payload.len(),
                    capacity.count_indicator_width,
                ) + digits_bits(payload),
            )
        } else {
            Err(EncodeError::CharacterCountOverflow)
        },
    }
}

/// `first_non_digit` gives the least position that holds no digit, and
/// gives none exactly when every byte is a digit.
pub proof fn lemma_first_non_digit(bytes: Seq<u8>)
    ensures
        match first_non_digit(bytes) {
            Some(position) => {
                &&& 0 <= position < bytes.len()
                &&& !is_digit(bytes[position])
                &&& forall|i: int| 0 <= i < position ==> is_digit(bytes[i])
            },
            None => forall|i: int| 0 <= i < bytes.len() ==> is_digit(bytes[i]),
        },
    decreases bytes.len(),
{
    if bytes.len() > 0 {
        let front = bytes.drop_last();
        lemma_first_non_digit(front);
        assert(forall|i: int| 0 <= i < front.len() ==> front[i] == bytes[i]);
    }
}

/// A prefix of a string without a non-digit has none either, and a string
/// whose first non-digit lies in a prefix has it at the same position.
proof fn lemma_first_non_digit_prefix(bytes: Seq<u8>, n: int)
    requires
        0 <= n <= bytes.len(),
    ensures
        first_non_digit(bytes.take(n)) matches Some(position) ==> first_non_digit(bytes)
            == Some(position),
        first_non_digit(bytes) is None ==> first_non_digit(bytes.take(n)) is None,
{
    let front = bytes.take(n);
    lemma_first_non_digit(bytes);
    lemma_first_non_digit(front);
    assert(forall|i: int| 0 <= i < front.len() ==> front[i] == bytes[i]);
}

/// Where the bytes before `done` are digits, the first non-digit of the
/// bytes from `done` to `next` is the first of the whole string, and
/// without one the bytes before `next` are digits too.
proof fn lemma_first_non_digit_group(bytes: Seq<u8>, done: int, next: int)
    requires
        0 <= done <= next <= bytes.len(),
        first_non_digit(bytes.take(done)) is None,
    ensures
        match first_non_digit(bytes.subrange(done, next)) {
            Some(position) => 0 <= position < next - done && first_non_digit(bytes) == Some(
                done + position,
            ),
            None => first_non_digit(bytes.take(next)) is None,
        },
{
    let before = bytes.take(done);
    let group = bytes.subrange(done, next);
    let upto = bytes.take(next);
    lemma_first_non_digit(before);
    lemma_first_non_digit(group);
    lemma_first_non_digit(upto);
    lemma_first_non_digit(bytes);
    assert(forall|i: int| 0 <= i < done ==> before[i] == bytes[i]);
    assert(forall|i: int| 0 <= i < next - done ==> group[i] == bytes[done + i]);
    assert(forall|i: int| 0 <= i < next ==> upto[i] == bytes[i]);
    match first_non_digit(group) {
        Some(position) => {
            assert(!is_digit(bytes[done + position]));
            assert forall|i: int| 0 <= i < done + position implies is_digit(bytes[i]) by {
                if i >= done {
                    assert(group[i - done] == bytes[i]);
                }
            }
        },
        None => {
            assert forall|i: int| 0 <= i < next implies is_digit(upto[i]) by {
                if i >= done {
                    assert(group[i - done] == bytes[i]);
                } else {
                    assert(before[i] == bytes[i]);
                }
            }
        },
    }
}

/// Whether a character is one of the ASCII digits `0` to `9`.
pub open spec fn is_digit_char(c: char) -> bool {
    0x30 <= c as u32 <= 0x39
}

/// The first non-digit of two strings joined is that of the first, or
/// else that of the second, moved by the length of the first.
proof fn lemma_first_non_digit_concat(front: Seq<u8>, back: Seq<u8>)
    ensures
        first_non_digit(front + back) == match first_non_digit(front) {
            Some(position) => Some(position),
            None => match first_non_digit(back) {
                Some(position) => Some(front.len() + position),
                None => None,
            },
        },
{
    let whole = front + back;
    assert(whole.take(front.len() as int) =~= front);
    assert(whole.subrange(front.len() as int, whole.len() as int) =~= back);
    assert(whole.take(whole.len() as int) =~= whole);
    match first_non_digit(front) {
        Some(position) => {
            lemma_first_non_digit_prefix(whole, front.len() as int);
        },
        None => {
            lemma_first_non_digit_group(whole, front.len() as int, whole.len() as int);
        },
    }
}

/// A digit is encoded in UTF-8 as one byte, a digit too, and the encoding
/// of any other character begins with a byte that is no digit.
proof fn lemma_first_byte_of_char(c: char)
    ensures
        is_digit_char(c) ==> encode_scalar(c as u32).len() == 1,
        encode_scalar(c as u32).len() >= 1,
        is_digit(encode_scalar(c as u32)[0]) == is_digit_char(c),
{
    let s = c as u32;
    let bytes = encode_scalar(s);
    if has_width_1_encoding(s) {
        assert((s & 0x7F) as u8 == s) by (bit_vector)
            requires
                s <= 0x7F,
        ;
    } else if has_width_2_encoding(s) {
        let low = ((s >> 6) & 0x1F) as u8;
        assert(0xC0u8 | low >= 0xC0) by (bit_vector);
    } else if has_width_3_encoding(s) {
        let low = ((s >> 12) & 0x0F) as u8;
        assert(0xE0u8 | low >= 0xE0) by (bit_vector);
    } else {
        let low = ((s >> 18) & 0x7) as u8;
        assert(0xF0u8 | low >= 0xF0) by (bit_vector);
    }
}

/// The position reported for a text counts characters as well as bytes: it
/// is the index of the first character that is no digit. A text without
/// one has as many bytes as characters.
pub proof fn lemma_position_counts_characters(chars: Seq<char>)
    ensures
        match first_non_digit(encode_utf8(chars)) {
            Some(position) => {
                &&& 0 <= position < chars.len()
                &&& !is_digit_char(chars[position])
                &&& forall|i: int| 0 <= i < position ==> is_digit_char(chars[i])
            },
            None => {
                &&& encode_utf8(chars).len() == chars.len()
                &&& forall|i: int| 0 <= i < chars.len() ==> is_digit_char(chars[i])
            },
        },
    decreases chars.len(),
{
    if chars.len() > 0 {
        let head = encode_scalar(chars[0] as u32);
        let tail = chars.drop_first();
        let rest = encode_utf8(tail);
        lemma_position_counts_characters(tail);
        lemma_first_byte_of_char(chars[0]);
        lemma_first_non_digit_concat(head, rest);
        lemma_first_non_digit(head);
        assert(forall|i: int| 0 < i < chars.len() ==> chars[i] == tail[i - 1]);
        if is_digit_char(chars[0]) {
            match first_non_digit(rest) {
                Some(position) => {
                    assert(chars[position + 1] == tail[position]);
                },
                None => {},
            }
        }
    }
}

/// Appending one more group to a digit string whose length is a multiple of
/// three appends that group's code to its data bits.
proof fn lemma_digits_bits_step(digits: Seq<u8>, done: int, next: int)
    requires
        0 <= done < next <= digits.len(),
        done % 3 == 0,
        next - done <= 3,
    ensures
        digits_bits(digits.take(next)) == digits_bits(digits.take(done)) + group_bits(
            digits.subrange(done, next),
        ),
{
    let shorter = digits.take(done);
    let longer = digits.take(next);
    let code = group_bits(digits.subrange(done, next));
    assert(group_count(longer.len()) == group_count(shorter.len()) + 1);
    assert forall|g: int| 0 <= g < group_count(shorter.len()) implies #[trigger] digit_groups(
        longer,
    )[g] == digit_groups(shorter)[g] by {
        assert(digit_group(longer, g) =~= digit_group(shorter, g));
    }
    assert(digit_group(longer, done / 3) =~= digits.subrange(done, next));
    assert(digit_groups(longer) =~= digit_groups(shorter).push(code));
    digit_groups(shorter).lemma_flatten_push(code);
}

/// The data bits of a digit string are as many as `numeric_bits_len` says.
pub proof fn lemma_digits_bits_len(digits: Seq<u8>)
    ensures
        digits_bits(digits).len() == numeric_bits_len(digits.len()),
    decreases digits.len(),
{
    if digits.len() == 0 {
        assert(digit_groups(digits) =~= Seq::<Seq<bool>>::empty());
    } else {
        let done = ((digits.len() - 1) / 3) * 3;
        lemma_digits_bits_step(digits, done, digits.len() as int);
        lemma_digits_bits_len(digits.take(done));
        assert(digits.take(digits.len() as int) =~= digits);
    }
}

/// What the numeric encoder gives is as long as `numeric_len` says.
pub proof fn lemma_encode_number_len(capacity: CapacityView, payload: Seq<u8>)
    ensures
        encode_number_spec(capacity, payload) matches Ok(data) ==> data.len() == numeric_len(
            capacity,
            payload.len(),
        ),
{
    lemma_digits_bits_len(payload);
}

/// Finds the first byte that is no ASCII digit.
pub fn find_invalid_digit(bytes: &[u8]) -> (found: Option<usize>)
    ensures
        match found {
            Some(position) => first_non_digit(bytes@) == Some(position as int),
            None => first_non_digit(bytes@) is None,
        },
{
    let mut i: usize = 0;
    while i < bytes.len()
        invariant
            i <= bytes@.len(),
            first_non_digit(bytes@.take(i as int)) is None,
        decreases bytes@.len() - i,
    {
        let byte = bytes[i];
        proof {
            assert(bytes@.take(i + 1).drop_last() =~= bytes@.take(i as int));
        }
        if byte < 0x30 || byte > 0x39 {
            proof {
                lemma_first_non_digit_prefix(bytes@, i + 1);
            }
            return Some(i);
        }
        i += 1;
    }
    proof {
        assert(bytes@.take(i as int) =~= bytes@);
    }
    None
}

/// Encodes one group of one to three digits: its decimal value in 4, 7 or
/// 10 bits. A byte that is no digit is reported with its position in the
/// group.
pub fn number_to_bits(group: &[u8]) -> (code: Result<BitBuffer, EncodeError>)
    requires
        1 <= group@.len() <= 3,
    ensures
        result_bits(code) == group_code(group@),
{
    match find_invalid_digit(group) {
        Some(position) => Err(EncodeError::InvalidDigit { position }),
        None => {
            let width: usize = match group.len() {
                1 => 4,
                2 => 7,
                _ => 10,
            };
            let mut value: u64 = 0;
            let mut i: usize = 0;
            while i < group.len()
                invariant
                    i <= group@.len() <= 3,
                    first_non_digit(group@) is None,
                    value == decimal_value(group@.take(i as int)),
                    i == 0 ==> value == 0,
                    i == 1 ==> value < 10,
                    i == 2 ==> value < 100,
                    i == 3 ==> value < 1000,
                decreases group@.len() - i,
            {
                proof {
                    lemma_first_non_digit(group@);
                    assert(group@.take(i + 1).drop_last() =~= group@.take(i as int));
                }
                value = value * 10 + (group[i] - 0x30) as u64;
                i += 1;
            }
            proof {
                assert(group@.take(i as int) =~= group@);
            }
            let mut code = BitBuffer::new();
            code.append_value(value, width);
            Ok(code)
        },
    }
}

/// Whether `count` can be written in `width` bits.
pub fn count_fits_width(count: usize, width: usize) -> (fits: bool)
    ensures
        fits == count_fits(count as nat, width as nat),
{
    if width >= 64 {
        proof {
            lemma2_to64();
            if width > 64 {
                lemma_pow2_strictly_increases(64, width as nat);
            }
        }
        true
    } else {
        let count = count as u64;
        let width = width as u64;
        proof {
            vstd::bits::lemma_u64_shr_is_div(count, width);
            vstd::arithmetic::power2::lemma_pow2_pos(width as nat);
            if count < pow2(width as nat) {
                vstd::arithmetic::div_mod::lemma_basic_div(
                    count as int,
                    pow2(width as nat) as int,
                );
            } else {
                vstd::arithmetic::div_mod::lemma_div_non_zero(
                    count as int,
                    pow2(width as nat) as int,
                );
            }
        }
        count >> width == 0
    }
}

/// The length in bits that `digits` digits encode to, indicators included,
/// or `None` where that number is too large to be written down.
pub fn encoded_len(capacity: &Capacity, digits: usize) -> (total: Option<usize>)
    ensures
        match total {
            Some(bits) => bits == numeric_len(capacity@, digits as nat),
            None => numeric_len(capacity@, digits as nat) > usize::MAX,
        },
{
    let tail: usize = match digits % 3 {
        1 => 4,
        2 => 7,
        _ => 0,
    };
    let groups = match (digits / 3).checked_mul(10) {
        Some(bits) => bits,
        None => {
            return None;
        },
    };
    let data = match groups.checked_add(tail) {
        Some(bits) => bits,
        None => {
            return None;
        },
    };
    let header = match capacity.mode_indicator_bits.len().checked_add(
        capacity.count_indicator_width,
    ) {
        Some(bits) => bits,
        None => {
            return None;
        },
    };
    header.checked_add(data)
}

/// Encodes a string of digits: the mode indicator, the number of digits in
/// the count indicator's width, then the digits in groups of three, with a
/// last group of one or two. The first byte that is no digit is reported
/// with its position; a string of digits too long for the count indicator
/// is refused.
pub fn encode_number(capacity: &Capacity, number: &str) -> (encoded: Result<
    BitBuffer,
    EncodeError,
>)
    requires
        numeric_len(capacity@, number.spec_bytes().len()) <= max_bits(),
    ensures
        result_bits(encoded) == encode_number_spec(capacity@, number.spec_bytes()),
{
    let bytes = number.as_bytes();
    let len = bytes.len();
    let mut data = BitBuffer::new();
    let mut i: usize = 0;
    while i < len
        invariant
            bytes@ == number.spec_bytes(),
            len == bytes@.len(),
            i <= len,
            i < len ==> i % 3 == 0,
            numeric_bits_len(len as nat) <= max_bits(),
            first_non_digit(bytes@.take(i as int)) is None,
            data@ == digits_bits(bytes@.take(i as int)),
        decreases len - i,
    {
        let end: usize = if len - i >= 3 {
            i + 3
        } else {
            len
        };
        let group = slice_subrange(bytes, i, end);
        proof {
            lemma_digits_bits_step(bytes@, i as int, end as int);
            lemma_digits_bits_len(bytes@.take(i as int));
            lemma_digits_bits_len(bytes@.take(end as int));
            lemma_first_non_digit_group(bytes@, i as int, end as int);
        }
        match number_to_bits(group) {
            Ok(code) => {
                data.append_buffer(&code);
            },
            Err(EncodeError::InvalidDigit { position }) => {
                return Err(EncodeError::InvalidDigit { position: i + position });
            },
            Err(e) => {
                return Err(e);
            },
        }
        i = end;
    }
    proof {
        assert(bytes@.take(i as int) =~= bytes@);
        lemma_digits_bits_len(bytes@);
    }
    if !count_fits_width(len, capacity.count_indicator_width) {
        return Err(EncodeError::CharacterCountOverflow);
    }
    let mut encoded = BitBuffer::new();
    encoded.append_bits(capacity.mode_indicator_bits.as_slice());
    encoded.append_value(len as u64, capacity.count_indicator_width);
    encoded.append_buffer(&data);
    Ok(encoded)
}

} // verus!
