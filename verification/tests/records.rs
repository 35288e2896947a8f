use record_codec::bits::Field;
use record_codec::encoder::{decode, encode, is_canonical};
use record_codec::error::SerializerError;
use record_codec::scheme::{
    data_element_bitsize, payload_element_bitsize, GroupElement, Record, RecordSerializerScheme, Root,
};
use record_codec::serializer::{deserialize, expected_elements, serialize, sum_widths};
use record_codec::small_curve::{chunk_to_integer, satisfies_equation, SmallCurveScheme};

const MODULUS: u64 = 8191;

fn bits_of(value: u64, len: usize) -> Vec<bool> {
    (0..len).map(|i| (value >> (len - 1 - i)) & 1 == 1).collect()
}

fn chunk_of(value: u64, len: usize) -> Vec<bool> {
    (0..len).map(|j| (value >> j) & 1 == 1).collect()
}

/// A curve on which every chunk is a coordinate.
fn open_scheme(widths: Vec<usize>) -> SmallCurveScheme {
    SmallCurveScheme::new(MODULUS, 0, 0, 251, 377, widths).unwrap()
}

/// A curve on which only some chunks are coordinates.
fn edwards_scheme(widths: Vec<usize>) -> SmallCurveScheme {
    SmallCurveScheme::new(MODULUS, MODULUS - 1, 5, 251, 377, widths).unwrap()
}

fn edwards_has_companion(x: u64) -> bool {
    let (p, a, d) = (MODULUS as u128, (MODULUS - 1) as u128, 5u128);
    let x = x as u128;
    (0..p).any(|y| (a * x * x + y * y) % p == (1 + d * x * x * y * y) % p)
}

fn sample_record(final_high: bool) -> Record {
    Record {
        fields: vec![
            Field { value: bits_of(0x0123_4567_89AB_CDEF, 64), width: 64 },
            Field { value: bits_of(0xCAFE_F00D, 32), width: 32 },
            Field { value: bits_of(0b10110, 5), width: 5 },
        ],
        final_high,
    }
}

#[test]
fn bit_sizes_follow_the_modulus() {
    let scheme = open_scheme(vec![64, 32, 5]);
    assert_eq!(scheme.inner_field_bitsize(), 13);
    assert_eq!(scheme.scalar_field_bitsize(), 251);
    assert_eq!(scheme.outer_field_bitsize(), 377);
    assert_eq!(data_element_bitsize(&scheme), 12);
    assert_eq!(payload_element_bitsize(&scheme), 11);
    assert_eq!(scheme.field_widths(), &vec![64, 32, 5]);
    let small = SmallCurveScheme::new(2, 0, 0, 1, 1, vec![]).unwrap();
    assert_eq!(small.inner_field_bitsize(), 2);
    let edge = SmallCurveScheme::new(4096, 0, 0, 1, 1, vec![]).unwrap();
    assert_eq!(edge.inner_field_bitsize(), 13);
    let below = SmallCurveScheme::new(4095, 0, 0, 1, 1, vec![]).unwrap();
    assert_eq!(below.inner_field_bitsize(), 12);
}

#[test]
fn scheme_refuses_bad_parameters() {
    assert_eq!(SmallCurveScheme::new(1, 0, 0, 1, 1, vec![]), None);
    assert_eq!(SmallCurveScheme::new(0x10000, 0, 0, 1, 1, vec![]), None);
    assert_eq!(SmallCurveScheme::new(13, 13, 0, 1, 1, vec![]), None);
    assert_eq!(SmallCurveScheme::new(13, 0, 13, 1, 1, vec![]), None);
    assert_eq!(SmallCurveScheme::new(13, 1, 2, 1, 1, vec![usize::MAX, 1]), None);
    assert!(SmallCurveScheme::new(13, 1, 2, 1, 1, vec![usize::MAX]).is_some());
}

#[test]
fn sum_widths_adds_or_gives_up() {
    assert_eq!(sum_widths(&vec![64, 32, 5]), Some(101));
    assert_eq!(sum_widths(&vec![]), Some(0));
    assert_eq!(sum_widths(&vec![usize::MAX, 1]), None);
}

#[test]
fn expected_elements_rounds_up() {
    assert_eq!(expected_elements(&open_scheme(vec![64, 32, 5])), 9);
    assert_eq!(expected_elements(&open_scheme(vec![12, 12])), 2);
    assert_eq!(expected_elements(&open_scheme(vec![12, 12, 1])), 3);
    assert_eq!(expected_elements(&open_scheme(vec![])), 0);
}

#[test]
fn chunk_to_integer_weighs_bit_j_by_two_to_the_j() {
    assert_eq!(chunk_to_integer(&vec![true, false, false]), Some(1));
    assert_eq!(chunk_to_integer(&vec![false, false, true]), Some(4));
    assert_eq!(chunk_to_integer(&chunk_of(0xABC, 12)), Some(0xABC));
    assert_eq!(chunk_to_integer(&vec![]), Some(0));
    assert_eq!(chunk_to_integer(&chunk_of(0xFFFF, 16)), Some(0xFFFF));
    assert_eq!(chunk_to_integer(&chunk_of(0xFFFF, 40)), Some(0xFFFF));
    assert_eq!(chunk_to_integer(&chunk_of(0x10000, 17)), None);
    assert_eq!(chunk_to_integer(&chunk_of(1 << 39, 40)), None);
}

#[test]
fn satisfies_equation_checks_the_curve() {
    assert!(satisfies_equation(13, 1, 2, 0, 1));
    assert!(satisfies_equation(13, 1, 2, 1, 0));
    assert!(!satisfies_equation(13, 1, 2, 1, 1));
    assert!(satisfies_equation(MODULUS, 0, 0, 4000, 1));
}

#[test]
fn encode_picks_the_canonical_point_unless_asked() {
    let scheme = open_scheme(vec![]);
    let x = chunk_of(0x5A5, 12);
    let (low, low_bit) = encode(&scheme, &x, false).unwrap();
    assert_eq!(low, GroupElement { coordinate: x.clone(), root: Root::Low });
    assert!(!low_bit);
    assert!(is_canonical(&low));
    let (high, high_bit) = encode(&scheme, &x, true).unwrap();
    assert_eq!(high, GroupElement { coordinate: x.clone(), root: Root::High });
    assert!(high_bit);
    assert!(!is_canonical(&high));
    assert_eq!(decode(&low), x);
    assert_eq!(decode(&high), x);
}

#[test]
fn encode_refuses_chunks_that_are_no_field_element() {
    let scheme = open_scheme(vec![]);
    assert!(encode(&scheme, &chunk_of(MODULUS - 1, 13), false).is_ok());
    assert_eq!(encode(&scheme, &chunk_of(MODULUS, 13), false), Err(SerializerError::InvalidFieldElement));
    assert_eq!(encode(&scheme, &chunk_of(1 << 20, 21), true), Err(SerializerError::InvalidFieldElement));
    assert!(encode(&scheme, &chunk_of(5, 21), true).is_ok());
}

#[test]
fn encode_refuses_chunks_off_the_curve() {
    let scheme = edwards_scheme(vec![]);
    let mut seen_valid = false;
    let mut seen_invalid = false;
    for x in 0..200u64 {
        let expected = edwards_has_companion(x);
        let got = encode(&scheme, &chunk_of(x, 12), false);
        assert_eq!(scheme.has_point(&chunk_of(x, 12)), expected);
        if expected {
            seen_valid = true;
            assert_eq!(got.unwrap().0.coordinate, chunk_of(x, 12));
        } else {
            seen_invalid = true;
            assert_eq!(got, Err(SerializerError::InvalidFieldElement));
        }
    }
    assert!(seen_valid && seen_invalid);
}

#[test]
fn round_trip_gives_the_record_back() {
    let scheme = open_scheme(vec![64, 32, 5]);
    for final_high in [false, true] {
        let record = sample_record(final_high);
        let (elements, bit) = serialize(&scheme, &record).unwrap();
        assert_eq!(bit, final_high);
        let back = deserialize(&scheme, elements, bit).unwrap();
        assert_eq!(back.fields, record.fields);
        assert_eq!(back.final_high, record.final_high);
        assert!(back.root_confirmed);
    }
}

#[test]
fn round_trip_normalizes_values_to_their_width() {
    let scheme = open_scheme(vec![16, 3]);
    let record = Record {
        fields: vec![
            Field { value: bits_of(0x2A, 6), width: 16 },
            Field { value: bits_of(0b0000_0101, 8), width: 3 },
        ],
        final_high: false,
    };
    let (elements, bit) = serialize(&scheme, &record).unwrap();
    let back = deserialize(&scheme, elements, bit).unwrap();
    assert_eq!(back.fields[0], Field { value: bits_of(0x2A, 16), width: 16 });
    assert_eq!(back.fields[1], Field { value: bits_of(0b101, 3), width: 3 });
}

#[test]
fn serialize_gives_the_expected_elements() {
    let scheme = open_scheme(vec![12, 4]);
    let record = Record {
        fields: vec![
            Field { value: bits_of(0x801, 12), width: 12 },
            Field { value: bits_of(0b1100, 4), width: 4 },
        ],
        final_high: true,
    };
    let (elements, bit) = serialize(&scheme, &record).unwrap();
    assert!(bit);
    assert_eq!(
        elements,
        vec![
            GroupElement { coordinate: bits_of(0x801, 12), root: Root::Low },
            GroupElement { coordinate: chunk_of(0b0011, 12), root: Root::High },
        ]
    );
}

#[test]
fn serialize_is_deterministic() {
    let scheme = open_scheme(vec![64, 32, 5]);
    let record = sample_record(true);
    assert_eq!(serialize(&scheme, &record), serialize(&scheme, &record));
    assert_eq!(serialize(&scheme, &record), serialize(&scheme, &record.clone()));
}

#[test]
fn all_but_the_last_element_are_canonical() {
    let scheme = open_scheme(vec![64, 32, 5]);
    for final_high in [false, true] {
        let (elements, bit) = serialize(&scheme, &sample_record(final_high)).unwrap();
        let count = elements.len();
        for element in &elements[..count - 1] {
            assert_eq!(element.root, Root::Low);
        }
        assert_eq!(elements[count - 1].root == Root::High, bit);
    }
}

#[test]
fn serialized_chunks_are_below_the_modulus() {
    let scheme = open_scheme(vec![64, 32, 5]);
    let record = Record {
        fields: vec![
            Field { value: bits_of(u64::MAX, 64), width: 64 },
            Field { value: bits_of(0xFFFF_FFFF, 32), width: 32 },
            Field { value: bits_of(0b11111, 5), width: 5 },
        ],
        final_high: false,
    };
    let (elements, _) = serialize(&scheme, &record).unwrap();
    for element in &elements {
        let x = chunk_to_integer(&element.coordinate).unwrap();
        assert!(x < MODULUS);
        assert!(x < (1 << 12));
    }
    assert_eq!(chunk_to_integer(&elements[0].coordinate), Some(4095));
}

#[test]
fn element_count_depends_on_widths_only() {
    let scheme = open_scheme(vec![64, 32, 5]);
    let zeros = Record {
        fields: vec![
            Field { value: vec![], width: 64 },
            Field { value: vec![], width: 32 },
            Field { value: vec![], width: 5 },
        ],
        final_high: false,
    };
    let a = serialize(&scheme, &zeros).unwrap().0.len();
    let b = serialize(&scheme, &sample_record(true)).unwrap().0.len();
    assert_eq!(a, 9);
    assert_eq!(b, 9);
    assert_eq!(a, expected_elements(&scheme));
}

#[test]
fn exact_multiple_of_the_chunk_width_takes_no_extra_element() {
    let scheme = open_scheme(vec![24]);
    let record = Record { fields: vec![Field { value: bits_of(0xFFFFFF, 24), width: 24 }], final_high: false };
    assert_eq!(serialize(&scheme, &record).unwrap().0.len(), 24 / 12);
}

#[test]
fn one_bit_over_takes_one_more_element() {
    let scheme = open_scheme(vec![25]);
    let record = Record { fields: vec![Field { value: bits_of(0x1FFFFFF, 25), width: 25 }], final_high: false };
    let (elements, _) = serialize(&scheme, &record).unwrap();
    assert_eq!(elements.len(), 3);
    assert_eq!(elements[2].coordinate, chunk_of(1, 12));
}

#[test]
fn serialize_rejects_value_wider_than_declared() {
    let scheme = open_scheme(vec![32]);
    let record = Record { fields: vec![Field { value: bits_of(u64::MAX, 64), width: 32 }], final_high: false };
    assert_eq!(serialize(&scheme, &record), Err(SerializerError::InvalidFieldWidth));
}

#[test]
fn serialize_rejects_record_over_the_element_count() {
    let scheme = open_scheme(vec![12, 12]);
    let record = Record { fields: vec![Field { value: vec![], width: 25 }], final_high: false };
    assert_eq!(serialize(&scheme, &record), Err(SerializerError::RecordTooLarge));
    let fits = Record { fields: vec![Field { value: vec![], width: 24 }], final_high: false };
    assert!(serialize(&scheme, &fits).is_ok());
}

#[test]
fn serialize_rejects_chunk_off_the_curve() {
    let scheme = edwards_scheme(vec![12]);
    let bad = (0..4096u64).find(|x| !edwards_has_companion(*x)).unwrap();
    let good = (1..4096u64).find(|x| edwards_has_companion(*x)).unwrap();
    let record = |x: u64| Record {
        fields: vec![Field { value: chunk_of(x, 12), width: 12 }],
        final_high: false,
    };
    assert_eq!(serialize(&scheme, &record(bad)), Err(SerializerError::InvalidFieldElement));
    let (elements, _) = serialize(&scheme, &record(good)).unwrap();
    assert_eq!(chunk_to_integer(&elements[0].coordinate), Some(good));
}

#[test]
fn width_failure_comes_before_size_failure() {
    let scheme = open_scheme(vec![12]);
    let record = Record {
        fields: vec![Field { value: bits_of(u64::MAX, 64), width: 32 }],
        final_high: false,
    };
    assert_eq!(serialize(&scheme, &record), Err(SerializerError::InvalidFieldWidth));
}

#[test]
fn deserialize_rejects_one_element_fewer() {
    let scheme = open_scheme(vec![64, 32, 5]);
    let (mut elements, bit) = serialize(&scheme, &sample_record(false)).unwrap();
    elements.pop();
    assert_eq!(deserialize(&scheme, elements, bit), Err(SerializerError::LengthMismatch));
}

#[test]
fn deserialize_rejects_one_element_more() {
    let scheme = open_scheme(vec![64, 32, 5]);
    let (mut elements, bit) = serialize(&scheme, &sample_record(false)).unwrap();
    elements.push(GroupElement { coordinate: chunk_of(0, 12), root: Root::Low });
    assert_eq!(deserialize(&scheme, elements, bit), Err(SerializerError::LengthMismatch));
}

#[test]
fn deserialize_reports_roots_that_do_not_match_the_bit() {
    let scheme = open_scheme(vec![64, 32, 5]);
    let record = sample_record(true);
    let (elements, _) = serialize(&scheme, &record).unwrap();
    let back = deserialize(&scheme, elements.clone(), false).unwrap();
    assert_eq!(back.fields, record.fields);
    assert!(!back.final_high);
    assert!(!back.root_confirmed);
    let mut moved = elements;
    moved[0].root = Root::High;
    let back = deserialize(&scheme, moved, true).unwrap();
    assert_eq!(back.fields, record.fields);
    assert!(!back.root_confirmed);
}

#[test]
fn record_without_bits_has_no_elements() {
    let scheme = open_scheme(vec![]);
    let record = Record { fields: vec![], final_high: true };
    assert_eq!(serialize(&scheme, &record), Ok((vec![], false)));
    let back = deserialize(&scheme, vec![], false).unwrap();
    assert!(back.fields.is_empty());
    assert!(back.root_confirmed);
    assert!(!deserialize(&scheme, vec![], true).unwrap().root_confirmed);
}
