use micro_qr::bits::BitBuffer;
use micro_qr::capacity::{lookup, Capacity};
use micro_qr::encoder::{encode_with_capacity, pad};
use micro_qr::numeric::encode_number;
use micro_qr::{encode, EncodeError, Mode, Version};

fn text(buf: &BitBuffer) -> String {
    buf.to_vec().iter().map(|b| if *b { '1' } else { '0' }).collect()
}

fn m1_numeric() -> Capacity {
    lookup(&Version::M1, &Mode::Numeric).unwrap()
}

#[test]
fn encoded_symbol_has_the_fixed_length() {
    for payload in ["", "0", "1", "12", "123", "1234", "12345", "99999", "00000"] {
        let encoded = encode(&Version::M1, &Mode::Numeric, payload).unwrap();
        assert_eq!(encoded.len(), 20 + 2 * 8);
    }
}

#[test]
fn encoding_twice_gives_the_same_bits() {
    for payload in ["7", "4096", "12345"] {
        let first = encode(&Version::M1, &Mode::Numeric, payload).unwrap();
        let second = encode(&Version::M1, &Mode::Numeric, payload).unwrap();
        assert_eq!(first.to_vec(), second.to_vec());
    }
    assert_eq!(
        encode(&Version::M1, &Mode::Numeric, "12a").unwrap_err(),
        encode(&Version::M1, &Mode::Numeric, "12a").unwrap_err()
    );
}

#[test]
fn encode_one_digit() {
    let encoded = encode(&Version::M1, &Mode::Numeric, "1").unwrap();
    assert_eq!(
        text(&encoded),
        format!("{}{}{}{}", "001", "0001", "0000000000000", "1110001111000001")
    );
}

#[test]
fn encode_three_digits() {
    let encoded = encode(&Version::M1, &Mode::Numeric, "123").unwrap();
    assert_eq!(
        text(&encoded),
        format!("{}{}{}{}", "011", "0001111011", "0000000", "0011100110000010")
    );
}

#[test]
fn encode_four_digits() {
    let encoded = encode(&Version::M1, &Mode::Numeric, "1234").unwrap();
    assert_eq!(
        text(&encoded),
        format!("{}{}{}{}{}", "100", "0001111011", "0100", "000", "1111111010100111")
    );
}

#[test]
fn payload_that_fills_the_capacity_gets_no_padding() {
    let data = encode_number(&m1_numeric(), "12345").unwrap();
    assert_eq!(data.len(), 20);
    let encoded = encode(&Version::M1, &Mode::Numeric, "12345").unwrap();
    assert_eq!(encoded.to_vec()[..20], data.to_vec()[..]);
    assert_eq!(
        text(&encoded),
        format!("{}{}{}{}", "101", "0001111011", "0101101", "0001010001100000")
    );
}

#[test]
fn payload_over_the_capacity_is_refused() {
    assert_eq!(
        encode(&Version::M1, &Mode::Numeric, "123456").unwrap_err(),
        EncodeError::DataCapacityExceeded
    );
    assert_eq!(
        encode(&Version::M1, &Mode::Numeric, "1234567").unwrap_err(),
        EncodeError::DataCapacityExceeded
    );
}

#[test]
fn pad_fills_with_zero_bits() {
    let mut data = BitBuffer::new();
    data.append_value(0b101, 3);
    assert_eq!(pad(&m1_numeric(), &mut data), Ok(()));
    assert_eq!(text(&data), "10100000000000000000");
}

#[test]
fn pad_leaves_data_of_full_length_alone() {
    let mut data = BitBuffer::new();
    data.append_value(0xFFFFF, 20);
    assert_eq!(pad(&m1_numeric(), &mut data), Ok(()));
    assert_eq!(text(&data), "11111111111111111111");
}

#[test]
fn pad_refuses_data_one_bit_over_the_capacity() {
    let mut data = BitBuffer::new();
    data.append_value(0x1FFFFF, 21);
    assert_eq!(pad(&m1_numeric(), &mut data), Err(EncodeError::DataCapacityExceeded));
    assert_eq!(data.len(), 21);
    assert_eq!(text(&data), "111111111111111111111");
}

#[test]
fn pad_of_an_empty_buffer() {
    let mut data = BitBuffer::new();
    assert_eq!(pad(&m1_numeric(), &mut data), Ok(()));
    assert_eq!(data.to_vec(), vec![false; 20]);
}

#[test]
fn non_digit_payload_is_refused() {
    assert_eq!(
        encode(&Version::M1, &Mode::Numeric, "12a").unwrap_err(),
        EncodeError::InvalidDigit { position: 2 }
    );
}

#[test]
fn payload_too_long_for_the_count_indicator_is_refused() {
    assert_eq!(
        encode(&Version::M1, &Mode::Numeric, "12345678").unwrap_err(),
        EncodeError::CharacterCountOverflow
    );
}

#[test]
fn pair_without_an_entry_is_refused() {
    assert_eq!(
        encode(&Version::M1, &Mode::Alphanumeric, "1").unwrap_err(),
        EncodeError::UnsupportedVersionOrMode
    );
    assert_eq!(
        encode(&Version::M1, &Mode::Kanji, "x").unwrap_err(),
        EncodeError::UnsupportedVersionOrMode
    );
}

#[test]
fn mode_without_an_encoder_is_refused() {
    for mode in [Mode::Alphanumeric, Mode::Byte, Mode::Kanji] {
        assert_eq!(
            encode_with_capacity(&m1_numeric(), &mode, "1").unwrap_err(),
            EncodeError::UnsupportedMode
        );
    }
}

#[test]
fn encode_with_capacity_agrees_with_encode() {
    for payload in ["", "5", "12345", "123456", "1x"] {
        let direct = encode(&Version::M1, &Mode::Numeric, payload).map(|b| b.to_vec());
        let by_capacity =
            encode_with_capacity(&m1_numeric(), &Mode::Numeric, payload).map(|b| b.to_vec());
        assert_eq!(direct, by_capacity);
    }
}

#[test]
fn encode_with_a_mode_indicator_and_whole_codewords() {
    let capacity = Capacity {
        mode_indicator_bits: vec![false],
        count_indicator_width: 4,
        data_capacity_bits: 40,
        ecc_codeword_count: 5,
    };
    assert!(capacity.is_wf());
    let encoded = encode_with_capacity(&capacity, &Mode::Numeric, "0123456789").unwrap();
    assert_eq!(encoded.len(), 40 + 5 * 8);
    let bits = text(&encoded);
    assert_eq!(
        &bits[..40],
        format!("{}{}{}{}{}{}{}", "0", "1010", "0000001100", "0101011001", "1010100110", "1001", "0")
    );
    let codewords = encoded.to_codewords();
    let expected = reed_solomon::Encoder::new(5).encode(&codewords[..5]).ecc().to_vec();
    assert_eq!(&codewords[5..], &expected[..]);
}

#[test]
fn encoding_too_long_for_any_buffer_is_refused() {
    let capacity = Capacity {
        mode_indicator_bits: vec![],
        count_indicator_width: usize::MAX / 2,
        data_capacity_bits: 20,
        ecc_codeword_count: 2,
    };
    assert!(capacity.is_wf());
    assert_eq!(
        encode_with_capacity(&capacity, &Mode::Numeric, "123").unwrap_err(),
        EncodeError::DataCapacityExceeded
    );
    assert_eq!(
        encode_with_capacity(&capacity, &Mode::Numeric, "12a").unwrap_err(),
        EncodeError::InvalidDigit { position: 2 }
    );
    let wide = Capacity {
        mode_indicator_bits: vec![],
        count_indicator_width: usize::MAX,
        data_capacity_bits: 20,
        ecc_codeword_count: 2,
    };
    assert_eq!(
        encode_with_capacity(&wide, &Mode::Numeric, "1").unwrap_err(),
        EncodeError::DataCapacityExceeded
    );
}
