use micro_qr::bits::BitBuffer;
use micro_qr::capacity::Capacity;
use micro_qr::ecc::generate;
use micro_qr::encoder::calc_ecc;

fn with_ecc(data_codewords: usize, ecc_codewords: usize) -> Capacity {
    Capacity {
        mode_indicator_bits: vec![],
        count_indicator_width: 3,
        data_capacity_bits: 8 * data_codewords,
        ecc_codeword_count: ecc_codewords,
    }
}

#[test]
fn all_zero_data_gives_all_zero_codewords() {
    assert_eq!(generate(&with_ecc(3, 2), &[0, 0, 0]), vec![0, 0]);
    assert_eq!(generate(&with_ecc(16, 10), &[0; 16]), vec![0; 10]);
    assert_eq!(generate(&with_ecc(0, 4), &[]), vec![0; 4]);
}

#[test]
fn distinct_data_gives_distinct_codewords() {
    let capacity = with_ecc(3, 2);
    let first = generate(&capacity, &[1, 0, 0]);
    let second = generate(&capacity, &[0, 0, 1]);
    assert_eq!(first, vec![15, 14]);
    assert_eq!(second, vec![3, 2]);
    assert_ne!(first, second);
    assert_ne!(generate(&capacity, &[1, 2, 3]), generate(&capacity, &[3, 2, 1]));
}

#[test]
fn data_that_the_generator_divides_has_zero_codewords() {
    let capacity = with_ecc(3, 2);
    assert_eq!(generate(&capacity, &[1, 3, 2]), vec![0, 0]);
    assert_eq!(generate(&capacity, &[2, 6, 4]), vec![0, 0]);
}

#[test]
fn generate_gives_as_many_codewords_as_asked() {
    for count in [0usize, 1, 2, 7, 30] {
        assert_eq!(generate(&with_ecc(4, count), &[1, 2, 3, 4]).len(), count);
    }
}

#[test]
fn generate_known_codewords() {
    let data: Vec<u8> = (0u8..30).collect();
    assert_eq!(
        generate(&with_ecc(30, 8), &data),
        vec![99, 26, 219, 193, 9, 94, 186, 143]
    );
    let message = [
        0x40, 0xd2, 0x75, 0x47, 0x76, 0x17, 0x32, 0x06, 0x27, 0x26, 0x96, 0xc6, 0xc6, 0x96, 0x70,
        0xec,
    ];
    assert_eq!(
        generate(&with_ecc(16, 10), &message),
        vec![188, 42, 144, 19, 107, 175, 239, 253, 75, 224]
    );
}

#[test]
fn generate_is_the_same_on_every_call() {
    let capacity = with_ecc(3, 2);
    assert_eq!(generate(&capacity, &[0xA3, 0xDA, 0x0D]), generate(&capacity, &[0xA3, 0xDA, 0x0D]));
}

#[test]
fn generate_agrees_with_the_reed_solomon_encoder() {
    let data = [0xA3u8, 0xDA, 0x0D];
    let expected = reed_solomon::Encoder::new(2).encode(&data).ecc().to_vec();
    assert_eq!(generate(&with_ecc(3, 2), &data), expected);
    assert_eq!(expected, vec![20, 96]);
}

#[test]
fn generate_fills_a_whole_block() {
    let data = [7u8; 200];
    assert_eq!(generate(&with_ecc(200, 55), &data).len(), 55);
}

#[test]
fn calc_ecc_groups_the_bits_and_writes_the_codewords_as_bits() {
    let capacity = Capacity {
        mode_indicator_bits: vec![],
        count_indicator_width: 3,
        data_capacity_bits: 20,
        ecc_codeword_count: 2,
    };
    let mut data = BitBuffer::new();
    data.append_value(0xA3DAD, 20);
    let ecc = calc_ecc(&capacity, &data);
    assert_eq!(ecc.to_codewords(), vec![20, 96]);
    assert_eq!(ecc.len(), 16);
}

#[test]
fn calc_ecc_of_zero_bits_is_zero() {
    let capacity = with_ecc(3, 2);
    let mut data = BitBuffer::new();
    data.zero_fill(20);
    assert_eq!(calc_ecc(&capacity, &data).to_vec(), vec![false; 16]);
}
