use encoding_rust::bitpacker64::{num_bits, pack, unpack};
use encoding_rust::var_int::{read_vlq, write_vlq};
use encoding_rust::zig_zag::{decode32, decode64, encode32, encode64};

#[test]
fn bit_packer_width_sweep() {
    for w in 1..=64u8 {
        let mask = if w == 64 { u64::MAX } else { (1u64 << w) - 1 };
        let input: Vec<u64> = (0..64u64).map(|i| i & mask).collect();
        let mut packed = vec![0u8; 8 * w as usize];
        assert_eq!(pack(&input, &mut packed, w), 8 * w as usize);
        let mut output = vec![0u64; 64];
        assert_eq!(unpack(&packed, &mut output, w), 8 * w as usize);
        assert_eq!(output, input);
    }
}

#[test]
fn bit_packer_layout_is_little_endian_lanes() {
    // Width 4: value i sits in bits 4i..4i+4 of the stream.
    let input: Vec<u64> = (0..64u64).map(|i| i % 16).collect();
    let mut packed = vec![0u8; 32];
    pack(&input, &mut packed, 4);
    assert_eq!(&packed[..8], &[0x10, 0x32, 0x54, 0x76, 0x98, 0xBA, 0xDC, 0xFE]);
    // Width 3: value 21 straddles the first two lanes (bits 63..66).
    let mut input = vec![0u64; 64];
    input[21] = 0b101;
    let mut packed = vec![0u8; 24];
    pack(&input, &mut packed, 3);
    assert_eq!(packed[7], 0x80);
    assert_eq!(packed[8], 0b10);
    let mut output = vec![0u64; 64];
    unpack(&packed, &mut output, 3);
    assert_eq!(output, input);
}

#[test]
fn bit_packer_full_width_is_identity() {
    let input: Vec<u64> = (0..64u64).map(|i| u64::MAX - i * 0x0101_0101).collect();
    let mut packed = vec![0u8; 512];
    pack(&input, &mut packed, 64);
    for (i, v) in input.iter().enumerate() {
        assert_eq!(&packed[8 * i..8 * i + 8], &v.to_le_bytes());
    }
}

#[test]
fn bit_packer_rejects_unsupported_widths() {
    let input = vec![1u64; 64];
    let mut packed = vec![9u8; 16];
    assert_eq!(pack(&input, &mut packed, 0), 0);
    assert_eq!(pack(&input, &mut packed, 65), 0);
    assert_eq!(packed, vec![9u8; 16]);
    let mut output = vec![3u64; 64];
    assert_eq!(unpack(&packed, &mut output, 0), 0);
    assert_eq!(output, vec![3u64; 64]);
}

#[test]
fn num_bits_is_minimal() {
    assert_eq!(num_bits(&[0u64; 64]), 0);
    let mut values = [0u64; 64];
    values[17] = 1;
    assert_eq!(num_bits(&values), 1);
    values[40] = 75;
    assert_eq!(num_bits(&values), 7);
    values[3] = 128;
    assert_eq!(num_bits(&values), 8);
    values[63] = u64::MAX;
    assert_eq!(num_bits(&values), 64);
    values[63] = 1 << 62;
    assert_eq!(num_bits(&values), 63);
}

#[test]
fn zig_zag_maps_small_magnitudes_to_small_values() {
    assert_eq!(encode64(0), 0);
    assert_eq!(encode64(-1), 1);
    assert_eq!(encode64(1), 2);
    assert_eq!(encode64(5), 10);
    assert_eq!(encode64(-50), 99);
    assert_eq!(encode64(i64::MAX), u64::MAX - 1);
    assert_eq!(encode64(i64::MIN), u64::MAX);
    assert_eq!(encode32(-1), 1);
    assert_eq!(encode32(i32::MIN), u32::MAX as u64);
    assert_eq!(encode32(i32::MAX), u32::MAX as u64 - 1);
}

#[test]
fn zig_zag_round_trips() {
    for x in [0i64, 1, -1, 63, -64, 1 << 40, i64::MAX, i64::MIN] {
        assert_eq!(decode64(encode64(x)), x);
    }
    for x in [0i32, 1, -1, 1000, -1000, i32::MAX, i32::MIN] {
        assert_eq!(decode32(encode32(x)), x);
    }
    assert_eq!(decode64(3), -2);
    assert_eq!(decode32(4), 2);
}

#[test]
fn vlq_bytes_are_little_endian_base_128() {
    let mut out = Vec::new();
    write_vlq(&mut out, 64);
    write_vlq(&mut out, 300);
    write_vlq(&mut out, u64::MAX);
    assert_eq!(&out[..3], &[0x40, 0xAC, 0x02]);
    assert_eq!(out.len(), 3 + 10);
    assert_eq!(out[12], 0x01);
    assert_eq!(read_vlq(&out, 0), Some((64, 1)));
    assert_eq!(read_vlq(&out, 1), Some((300, 3)));
    assert_eq!(read_vlq(&out, 3), Some((u64::MAX, 13)));
}

#[test]
fn vlq_read_rejects_truncated_and_oversized() {
    assert_eq!(read_vlq(&[0x80, 0x80], 0), None);
    assert_eq!(read_vlq(&[], 0), None);
    let too_big = [0xFF, 0xFF, 0xFF, 0xFF, 0xFF, 0xFF, 0xFF, 0xFF, 0xFF, 0x02];
    assert_eq!(read_vlq(&too_big, 0), None);
}

#[test]
fn add_sums() {
    assert_eq!(encoding_rust::add(2, 2), 4);
}
