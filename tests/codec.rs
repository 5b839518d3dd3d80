use encoding_rust::delta_encoding_64::{
    CodecError, DecimalParts, Decoder, DeltaVec, DeltaVecDecimal, Encoder,
};
use rand::{Rng, SeedableRng};
use rand_chacha::ChaCha8Rng;

fn encode(values: &[i64], mini_blocks: usize) -> Vec<u8> {
    let mut encoder = Encoder::new(mini_blocks);
    for v in values {
        encoder.write_integer(*v);
    }
    encoder.flush();
    let mut out = Vec::new();
    encoder.write(&mut out);
    out
}

fn decode(bytes: Vec<u8>) -> Result<Vec<i64>, CodecError> {
    let mut decoder = Decoder::new(bytes)?;
    decoder.read_integers()
}

#[test]
fn it_works() {
    let mut rng = ChaCha8Rng::seed_from_u64(3);
    let before: Vec<i64> = (0..64)
        .map(|_| rng.gen_range(1000000000000..=1100000000000))
        .collect();

    let mut encoder = Encoder::new(1);
    before.iter().for_each(|i| {
        encoder.write_integer(*i as i64);
    });
    encoder.flush();

    let mut buffer = Vec::new();
    encoder.write(&mut buffer);

    let mut decoder = Decoder::new(buffer).unwrap();
    let numbers = decoder.read_integers().unwrap();

    assert_eq!(before, numbers);
}

#[test]
fn single_value_is_header_only() {
    let bytes = encode(&[5], 1);
    assert_eq!(bytes, vec![0x40, 0x01, 0x01, 0x0A]);
    assert_eq!(decode(bytes).unwrap(), vec![5]);
}

#[test]
fn equal_deltas_pack_to_width_zero() {
    let bytes = encode(&[10, 11, 12, 13], 1);
    assert_eq!(bytes, vec![0x40, 0x01, 0x04, 0x14, 0x02, 0x00]);
    assert_eq!(decode(bytes).unwrap(), vec![10, 11, 12, 13]);
}

#[test]
fn negative_min_delta_block() {
    let bytes = encode(&[100, 50, 75], 1);
    // header: 64, 1, 3, zig-zag 100 = 200 as two VLQ bytes
    assert_eq!(&bytes[..5], &[0x40, 0x01, 0x03, 0xC8, 0x01]);
    // zig-zag of -50, then one width byte
    assert_eq!(bytes[5], 0x63);
    assert_eq!(bytes[6], 7);
    assert_eq!(bytes.len(), 7 + 56);
    assert_eq!(decode(bytes).unwrap(), vec![100, 50, 75]);
}

#[test]
fn extreme_values_wrap() {
    let values = vec![i64::MAX, i64::MIN, 0];
    assert_eq!(decode(encode(&values, 1)).unwrap(), values);
}

#[test]
fn seeded_random_values_round_trip() {
    let mut rng = ChaCha8Rng::seed_from_u64(3);
    let before: Vec<i64> = (0..4)
        .map(|_| rng.gen_range(1000000000000..=1100000000000))
        .collect();
    assert_eq!(decode(encode(&before, 1)).unwrap(), before);
}

#[test]
fn empty_sequence_round_trip() {
    let bytes = encode(&[], 1);
    assert_eq!(bytes, vec![0x40, 0x01, 0x00, 0x00]);
    assert_eq!(decode(bytes).unwrap(), Vec::<i64>::new());
}

#[test]
fn padding_is_hidden() {
    let values = decode(encode(&[0, 0, 0], 1)).unwrap();
    assert_eq!(values, vec![0, 0, 0]);
}

#[test]
fn round_trip_many_lengths_and_block_sizes() {
    let mut rng = ChaCha8Rng::seed_from_u64(11);
    for mini_blocks in 1..=3usize {
        for len in [0usize, 1, 2, 63, 64, 65, 128, 129, 200, 400] {
            let values: Vec<i64> = (0..len).map(|_| rng.gen::<i64>() >> rng.gen_range(0..64)).collect();
            assert_eq!(decode(encode(&values, mini_blocks)).unwrap(), values);
        }
    }
}

#[test]
fn monotonic_run_round_trip() {
    let values: Vec<i64> = (0..300).map(|i| i * 3 - 100).collect();
    assert_eq!(decode(encode(&values, 2)).unwrap(), values);
}

#[test]
fn block_count_matches_value_count() {
    // 130 values give 129 deltas: three blocks of 64 with one miniblock each, all of
    // width 0 since every delta is 1.
    let values: Vec<i64> = (0..130).collect();
    let bytes = encode(&values, 1);
    let header = [0x40, 0x01, 0x82, 0x01, 0x00];
    assert_eq!(&bytes[..5], &header);
    assert_eq!(&bytes[5..], &[0x02, 0x00, 0x02, 0x00, 0x02, 0x00]);
}

#[test]
fn full_block_length_is_head_width_and_packed_bytes() {
    // Deltas 0, 1, ..., 63 after a first value of 0: min delta 0, largest residual 63.
    let mut values = vec![0i64];
    let mut acc = 0i64;
    for d in 0..64 {
        acc += d;
        values.push(acc);
    }
    let bytes = encode(&values, 1);
    let header_len = 4;
    let w = 6;
    assert_eq!(bytes[header_len], 0x00);
    assert_eq!(bytes[header_len + 1], w);
    assert_eq!(bytes.len(), header_len + 1 + 1 + 8 * w as usize);
    assert_eq!(decode(bytes).unwrap(), values);
}

#[test]
fn invalid_header_is_rejected() {
    assert_eq!(decode(vec![0x00, 0x01, 0x01, 0x00]).unwrap_err(), CodecError::InvalidHeader);
    assert_eq!(decode(vec![0x40, 0x00, 0x01, 0x00]).unwrap_err(), CodecError::InvalidHeader);
    assert_eq!(decode(vec![0x40, 0x02, 0x01, 0x00]).unwrap_err(), CodecError::InvalidHeader);
}

#[test]
fn truncated_input_is_rejected() {
    assert_eq!(decode(vec![]).unwrap_err(), CodecError::TruncatedInput);
    assert_eq!(decode(vec![0x40, 0x01]).unwrap_err(), CodecError::TruncatedInput);
    assert_eq!(decode(vec![0x40, 0x01, 0x01, 0x80]).unwrap_err(), CodecError::TruncatedInput);
    // two values announced, block head missing
    assert_eq!(decode(vec![0x40, 0x01, 0x02, 0x00]).unwrap_err(), CodecError::TruncatedInput);
    // width 7 announced, packed bytes missing
    let mut bytes = encode(&[100, 50, 75], 1);
    bytes.truncate(20);
    assert_eq!(decode(bytes).unwrap_err(), CodecError::TruncatedInput);
}

#[test]
fn unsupported_width_is_rejected() {
    let bytes = vec![0x40, 0x01, 0x02, 0x00, 0x00, 65];
    assert_eq!(decode(bytes).unwrap_err(), CodecError::UnsupportedWidth);
}

#[test]
fn reading_every_value_marks_the_decoder_done() {
    let mut decoder = Decoder::new(encode(&[7, 8], 1)).unwrap();
    assert!(!decoder.all_read());
    decoder.check_read();
    assert_eq!(decoder.read_integer(), Ok(7));
    assert_eq!(decoder.read_integer(), Ok(8));
    assert!(decoder.all_read());
    assert_eq!(decoder.values_read, decoder.total_count);
}

#[test]
fn read_integers_leaves_every_value_read() {
    let mut decoder = Decoder::new(encode(&[0, 0, 0], 1)).unwrap();
    assert_eq!(decoder.read_integers().unwrap(), vec![0, 0, 0]);
    assert_eq!(decoder.total_count, 3);
    assert!(decoder.all_read());
    let mut decoder = Decoder::new(vec![0x40, 0x01, 0x01, 0x0A]).unwrap();
    assert_eq!(decoder.read_integers().unwrap(), vec![5]);
    assert!(decoder.all_read());
}

#[test]
fn flush_pads_with_the_smallest_delta() {
    let mut encoder = Encoder::new(1);
    encoder.write_integer(10);
    encoder.write_integer(7);
    encoder.write_integer(9);
    encoder.flush();
    // 62 padding values, each 3 below the one before
    assert_eq!(encoder.previous_value, 9 - 3 * 62);
}

#[test]
fn decoder_reads_first_block_head_eagerly() {
    let decoder = Decoder::new(encode(&[100, 50, 75], 1)).unwrap();
    assert_eq!(decoder.min_delta, -50);
    assert_eq!(decoder.bit_widths.len(), 1);
    assert_eq!(decoder.bit_widths[0], 7);
    assert_eq!(decoder.total_count, 3);
}

#[test]
fn delta_vec_push_and_extend() {
    let mut delta_vec = DeltaVec::new();
    delta_vec.push(10);
    delta_vec.extend(vec![1, 2, 4]);
    assert_eq!(delta_vec.to_vec(), vec![10, 1, 2, 4]);

    delta_vec.push(10);
    delta_vec.extend(vec![1, 2, 4]);
    assert_eq!(delta_vec.to_vec(), vec![10, 1, 2, 4, 10, 1, 2, 4]);
}

#[test]
fn delta_vec_replace_and_empty() {
    let mut delta_vec = DeltaVec::new();
    assert_eq!(delta_vec.to_vec(), Vec::<i64>::new());
    delta_vec.extend(vec![5, 6]);
    delta_vec.replace(vec![-1, -2, -3]);
    assert_eq!(delta_vec.to_vec(), vec![-1, -2, -3]);
}

#[test]
fn encoder_tracks_block_state() {
    let mut encoder = Encoder::new(1);
    encoder.write_integer(10);
    encoder.write_integer(7);
    encoder.write_integer(9);
    assert_eq!(encoder.first_value, 10);
    assert_eq!(encoder.previous_value, 9);
    assert_eq!(encoder.pos, 2);
    assert_eq!(encoder.min_delta, -3);
    assert_eq!(encoder.total_count, 3);
    encoder.flush();
    assert_eq!(encoder.pos, 0);
    assert_eq!(encoder.total_count, 3);
    assert_eq!(encoder.min_delta, i64::MAX);
}

fn dec(s: &str) -> DecimalParts {
    let d = rust_decimal::Decimal::from_str_exact(s).unwrap();
    DecimalParts { mantissa: d.mantissa(), scale: d.scale() }
}

fn as_decimal(d: DecimalParts) -> rust_decimal::Decimal {
    rust_decimal::Decimal::from_i128_with_scale(d.mantissa, d.scale)
}

#[test]
fn decimal_vec_integers_keep_multiplier_one() {
    let mut v = DeltaVecDecimal::new();
    v.push(dec("10"));
    v.extend(vec![dec("1"), dec("2"), dec("4")]);
    assert_eq!(v.multiplier, 1);
    assert_eq!(v.delta_vec.to_vec(), vec![10, 1, 2, 4]);
    let back: Vec<_> = v.to_vec().into_iter().map(as_decimal).collect();
    assert_eq!(back, vec![dec("10"), dec("1"), dec("2"), dec("4")].into_iter().map(as_decimal).collect::<Vec<_>>());
}

#[test]
fn decimal_vec_scales_by_precision() {
    let mut v = DeltaVecDecimal::new();
    v.extend(vec![dec("1.50"), dec("2.25")]);
    assert_eq!(v.multiplier, 100);
    assert_eq!(v.delta_vec.to_vec(), vec![150, 225]);
    assert_eq!(as_decimal(v.max_value), as_decimal(dec("2.25")));
    let back: Vec<_> = v.to_vec().into_iter().map(as_decimal).collect();
    assert_eq!(back, vec![as_decimal(dec("1.5")), as_decimal(dec("2.25"))]);
}

#[test]
fn decimal_vec_clamps_precision_to_eight_digits() {
    let mut v = DeltaVecDecimal::new();
    v.push(dec("0.123456789012"));
    assert_eq!(v.multiplier, 100_000_000);
    assert_eq!(v.delta_vec.to_vec(), vec![12345679]);
}

#[test]
fn decimal_vec_lowers_multiplier_for_large_values() {
    let mut v = DeltaVecDecimal::new();
    v.extend(vec![dec("0.6"), dec("1000000000000000000")]);
    assert_eq!(v.multiplier, 9);
    assert_eq!(v.delta_vec.to_vec(), vec![5, 9000000000000000000]);
}

#[test]
fn decimal_vec_multiplier_never_drops_to_zero() {
    let mut v = DeltaVecDecimal::new();
    v.push(dec("100000000000000000000"));
    assert_eq!(v.multiplier, 1);
    // the value does not fit in an i64, so it is stored as 0
    assert_eq!(v.delta_vec.to_vec(), vec![0]);
}
