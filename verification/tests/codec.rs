use gba_tools::decode;
use gba_tools::encode;
use gba_tools::CodecError;
use gba_tools::FormatSelector;
use gba_tools::diff::filter_diff16;
use gba_tools::diff::filter_diff8;
use gba_tools::diff::unfilter_diff16;
use gba_tools::diff::unfilter_diff8;
use gba_tools::huffman::compress_huffman;
use gba_tools::huffman::decompress_huffman;
use gba_tools::lz77::compress_lz77;
use gba_tools::lz77::decompress_lz77;
use gba_tools::lz77::decompress_lz77_len;
use gba_tools::rle::compress_rle;
use gba_tools::rle::decompress_rle;
use gba_tools::wl4::compress_wl4_rle;
use gba_tools::wl4::compress_wl4_rle16;
use gba_tools::wl4::compress_wl4_rle8;
use gba_tools::wl4::decompress_wl4_rle;
use gba_tools::wl4::decompress_wl4_rle16;
use gba_tools::wl4::decompress_wl4_rle8;

fn sample_data() -> Vec<u8> {
    let mut v = Vec::new();
    for i in 0..600usize {
        v.push((i % 251) as u8);
    }
    for _ in 0..200usize {
        v.push(0x5A);
    }
    for i in 0..600usize {
        v.push((i % 251) as u8);
    }
    v
}

#[test]
fn rle_round_trip() {
    let data = sample_data();
    let wire = compress_rle(&data).unwrap();
    assert_eq!(decompress_rle(&wire).unwrap(), data);
}

#[test]
fn rle_round_trip_empty() {
    let data: Vec<u8> = Vec::new();
    let wire = compress_rle(&data).unwrap();
    assert_eq!(wire, vec![0x30, 0, 0, 0]);
    assert_eq!(decompress_rle(&wire).unwrap(), data);
}

#[test]
fn rle_boundary_single_run_of_130() {
    let data = vec![0xAA; 130];
    let wire = compress_rle(&data).unwrap();
    // one repeat run: flag marking repeat with length field 127 == 130 - 3
    assert_eq!(wire, vec![0x30, 130, 0, 0, 0x80 | 127, 0xAA]);
    assert_eq!(decompress_rle(&wire).unwrap(), data);
}

#[test]
fn rle_boundary_131_needs_two_runs() {
    let data = vec![0xAA; 131];
    let wire = compress_rle(&data).unwrap();
    // a 130-run, then one more byte; never a single run over 130
    assert_eq!(wire[4], 0x80 | 127);
    assert_eq!(wire[5], 0xAA);
    assert_eq!(wire.len(), 4 + 2 + 2);
    assert_eq!(decompress_rle(&wire).unwrap(), data);
}

#[test]
fn rle_run_overrunning_declared_size_is_invalid() {
    // declared size 2, but the repeat run wants to write 3 bytes
    let wire = vec![0x30, 2, 0, 0, 0x80, 0xAA];
    assert_eq!(decompress_rle(&wire), Err(CodecError::InvalidRun));
}

#[test]
fn rle_truncated_literal_is_eof() {
    // literal run of 4 bytes declared, only 2 present
    let wire = vec![0x30, 4, 0, 0, 0x03, 0x01, 0x02];
    assert_eq!(decompress_rle(&wire), Err(CodecError::UnexpectedEof));
}

#[test]
fn lz77_round_trip() {
    let data = sample_data();
    let wire = compress_lz77(&data, false).unwrap();
    assert_eq!(decompress_lz77(&wire).unwrap(), data);
}

#[test]
fn lz77_round_trip_vram_safe() {
    let data = vec![7u8; 50];
    let wire = compress_lz77(&data, true).unwrap();
    assert_eq!(decompress_lz77(&wire).unwrap(), data);
}

#[test]
fn lz77_round_trip_empty() {
    let data: Vec<u8> = Vec::new();
    let wire = compress_lz77(&data, false).unwrap();
    assert_eq!(decompress_lz77(&wire).unwrap(), data);
}

#[test]
fn lz77_vram_safe_never_uses_distance_one_or_two() {
    // a run of one byte invites distance-1 matches; VRAM-safe mode must not
    let data = vec![0x41u8; 40];
    let wire = compress_lz77(&data, true).unwrap();
    // walk the payload: every match unit must reach back at least 3 bytes
    let mut i = 4;
    let mut produced = 0usize;
    let mut flags = 0u8;
    let mut k = 0;
    let size = 40;
    while produced < size {
        if k == 0 {
            flags = wire[i];
            i += 1;
            k = 8;
            continue;
        }
        let bit = (flags >> (k - 1)) & 1 == 1;
        k -= 1;
        if bit {
            let dist = ((wire[i] as usize & 0x0F) << 8 | wire[i + 1] as usize) + 1;
            let len = (wire[i] as usize >> 4) + 3;
            assert!(dist >= 3, "VRAM-safe stream uses distance {}", dist);
            produced += len;
            i += 2;
        } else {
            produced += 1;
            i += 1;
        }
    }
    assert_eq!(decompress_lz77(&wire).unwrap(), data);
}

#[test]
fn lz77_overlapping_match_decodes_byte_by_byte() {
    // one literal 0x41, then a match of length 4 at distance 1
    let wire = vec![0x10, 5, 0, 0, 0b0100_0000, 0x41, 0x10, 0x00];
    assert_eq!(decompress_lz77(&wire).unwrap(), vec![0x41; 5]);
}

#[test]
fn lz77_truncated_match_unit_is_eof() {
    // flag byte says match, but only one of its two bytes is present
    let wire = vec![0x10, 4, 0, 0, 0x80, 0x10];
    assert_eq!(decompress_lz77(&wire), Err(CodecError::UnexpectedEof));
}

#[test]
fn lz77_match_behind_start_is_invalid() {
    // first unit is a match, but nothing has been produced yet
    let wire = vec![0x10, 3, 0, 0, 0x80, 0x10, 0x04];
    assert_eq!(decompress_lz77(&wire), Err(CodecError::InvalidBackReference));
}

#[test]
fn lz77_shrunk_size_field_is_size_mismatch() {
    let data = vec![0x41u8; 20];
    let mut wire = compress_lz77(&data, false).unwrap();
    // corrupt the declared size downward so a match unit overruns it
    wire[1] = 2;
    assert_eq!(decompress_lz77(&wire), Err(CodecError::SizeMismatch));
}

#[test]
fn header_declares_input_length() {
    let data = sample_data();
    let wire = compress_lz77(&data, false).unwrap();
    let declared = wire[1] as usize | (wire[2] as usize) << 8 | (wire[3] as usize) << 16;
    assert_eq!(declared, data.len());
    let wire2 = compress_rle(&data).unwrap();
    let declared2 = wire2[1] as usize | (wire2[2] as usize) << 8 | (wire2[3] as usize) << 16;
    assert_eq!(declared2, data.len());
}

#[test]
fn huffman_round_trip_eight_bit() {
    let data = sample_data();
    let wire = compress_huffman(&data, false).unwrap();
    assert_eq!(decompress_huffman(&wire).unwrap(), data);
}

#[test]
fn huffman_round_trip_four_bit() {
    let data = sample_data();
    let wire = compress_huffman(&data, true).unwrap();
    assert_eq!(decompress_huffman(&wire).unwrap(), data);
}

#[test]
fn huffman_round_trip_single_symbol() {
    let data = vec![0x42u8; 9];
    let wire = compress_huffman(&data, false).unwrap();
    assert_eq!(decompress_huffman(&wire).unwrap(), data);
}

#[test]
fn huffman_round_trip_all_byte_values() {
    let mut data = Vec::new();
    for i in 0..=255u8 {
        data.push(i);
    }
    let wire = compress_huffman(&data, false).unwrap();
    assert_eq!(decompress_huffman(&wire).unwrap(), data);
}

#[test]
fn huffman_empty_declared_size_reads_nothing() {
    let data: Vec<u8> = Vec::new();
    let wire = compress_huffman(&data, false).unwrap();
    assert_eq!(wire, vec![0x28, 0, 0, 0]);
    assert_eq!(decompress_huffman(&wire).unwrap(), data);
    // even with trailing bytes, a zero-size stream ends at its header
    let noisy = vec![0x24, 0, 0, 0, 0xFF, 0xFF];
    assert_eq!(decompress_huffman(&noisy).unwrap(), Vec::<u8>::new());
}

#[test]
fn huffman_empty_table_with_nonzero_size_is_corrupt() {
    let wire = vec![0x28, 1, 0, 0, 0];
    assert_eq!(decompress_huffman(&wire), Err(CodecError::TreeCorruption));
}

#[test]
fn huffman_zero_child_offset_is_corrupt() {
    // one record whose one-child offset is zero: it would point at itself
    let wire = vec![0x28, 2, 0, 0, 1, 0x01, 0x42, 0x00, 0xFF];
    assert_eq!(decompress_huffman(&wire), Err(CodecError::TreeCorruption));
}

#[test]
fn huffman_child_offset_past_table_end_is_corrupt() {
    // one record whose one-child offset reaches past the single record
    let wire = vec![0x28, 2, 0, 0, 1, 0x01, 0x42, 0x05, 0xFF];
    assert_eq!(decompress_huffman(&wire), Err(CodecError::TreeCorruption));
}

#[test]
fn diff8_round_trip() {
    let data = vec![10u8, 20, 15, 15, 200, 3];
    let wire = filter_diff8(&data).unwrap();
    assert_eq!(wire[0], 0x81);
    assert_eq!(&wire[4..], &[10, 10, 251, 0, 185, 59]);
    assert_eq!(unfilter_diff8(&wire).unwrap(), data);
}

#[test]
fn diff8_round_trip_empty() {
    let data: Vec<u8> = Vec::new();
    let wire = filter_diff8(&data).unwrap();
    assert_eq!(unfilter_diff8(&wire).unwrap(), data);
}

#[test]
fn diff16_round_trip() {
    let data = vec![0x34u8, 0x12, 0x35, 0x12, 0x00, 0x10];
    let wire = filter_diff16(&data).unwrap();
    assert_eq!(wire[0], 0x82);
    assert_eq!(&wire[4..], &[0x34, 0x12, 0x01, 0x00, 0xCB, 0xFD]);
    assert_eq!(unfilter_diff16(&wire).unwrap(), data);
}

#[test]
fn diff16_odd_input_is_invalid_length() {
    let data = vec![1u8, 2, 3];
    assert_eq!(filter_diff16(&data), Err(CodecError::InvalidLength));
    let wire = vec![0x82, 3, 0, 0, 1, 2, 3];
    assert_eq!(unfilter_diff16(&wire), Err(CodecError::InvalidLength));
}

#[test]
fn wl4_rle_round_trip_inverted_flags() {
    let data = sample_data();
    let wire = compress_wl4_rle(&data).unwrap();
    assert_eq!(wire[0], 0x40);
    assert_eq!(decompress_wl4_rle(&wire).unwrap(), data);
    // the generic variant marks a literal run with the high bit set
    let two = vec![1u8, 2];
    let w2 = compress_wl4_rle(&two).unwrap();
    assert_eq!(&w2[4..], &[0x81, 1, 2]);
}

#[test]
fn wl4_rle_repeat_flag_has_high_bit_clear() {
    let data = vec![9u8; 5];
    let wire = compress_wl4_rle(&data).unwrap();
    // the generic variant marks a repeat run with the high bit clear
    assert_eq!(&wire[4..], &[5 - 3, 9]);
    assert_eq!(decompress_wl4_rle(&wire).unwrap(), data);
}

#[test]
fn dispatch_reports_invalid_length_for_odd_halfword_input() {
    let data = vec![1u8, 2, 3];
    assert_eq!(
        encode(&data, FormatSelector::Diff16),
        Err(CodecError::InvalidLength)
    );
    assert_eq!(
        encode(&data, FormatSelector::Wl4Rle16),
        Err(CodecError::InvalidLength)
    );
}

#[test]
fn wl4_rle8_round_trip() {
    let data = sample_data();
    let wire = compress_wl4_rle8(&data).unwrap();
    assert_eq!(wire[0], 0x41);
    assert_eq!(decompress_wl4_rle8(&wire).unwrap(), data);
}

#[test]
fn wl4_rle16_round_trip() {
    let mut data = Vec::new();
    for i in 0..300usize {
        data.push((i % 7) as u8);
        data.push(0x80);
    }
    let wire = compress_wl4_rle16(&data).unwrap();
    assert_eq!(wire[0], 0x42);
    assert_eq!(decompress_wl4_rle16(&wire).unwrap(), data);
}

#[test]
fn wl4_rle16_repeats_whole_halfwords() {
    // six identical halfwords become one repeat run of one 2-byte element
    let data = vec![0xCD, 0xAB, 0xCD, 0xAB, 0xCD, 0xAB, 0xCD, 0xAB, 0xCD, 0xAB, 0xCD, 0xAB];
    let wire = compress_wl4_rle16(&data).unwrap();
    assert_eq!(&wire[4..], &[0x80 | 3, 0xCD, 0xAB]);
    assert_eq!(decompress_wl4_rle16(&wire).unwrap(), data);
}

#[test]
fn wl4_rle16_odd_input_is_invalid_length() {
    let data = vec![1u8, 2, 3];
    assert_eq!(compress_wl4_rle16(&data), Err(CodecError::InvalidLength));
    let wire = vec![0x42, 3, 0, 0, 0x02, 9, 9, 9];
    assert_eq!(decompress_wl4_rle16(&wire), Err(CodecError::InvalidLength));
}

#[test]
fn dispatch_round_trips_every_selector() {
    let mut data = sample_data();
    data.truncate(700);
    let selectors = [
        FormatSelector::Lz77 { vram_safe: false },
        FormatSelector::Lz77 { vram_safe: true },
        FormatSelector::Huffman { four_bit_symbols: false },
        FormatSelector::Huffman { four_bit_symbols: true },
        FormatSelector::Rle,
        FormatSelector::Diff8,
        FormatSelector::Diff16,
        FormatSelector::Wl4Rle,
        FormatSelector::Wl4Rle8,
        FormatSelector::Wl4Rle16,
    ];
    for sel in selectors {
        let wire = encode(&data, sel).unwrap();
        assert_eq!(decode(&wire).unwrap(), data, "selector {:?}", sel);
    }
}

#[test]
fn dispatch_rejects_unknown_tag() {
    let wire = vec![0x99, 1, 0, 0, 0x00];
    assert_eq!(decode(&wire), Err(CodecError::InvalidHeader));
}

#[test]
fn dispatch_rejects_short_wire() {
    let wire = vec![0x10, 0, 0];
    assert_eq!(decode(&wire), Err(CodecError::UnexpectedEof));
}

#[test]
fn lz77_length_variant_reports_stream_extent() {
    let data = vec![1u8, 2, 3, 4, 5];
    let mut wire = compress_lz77(&data, false).unwrap();
    let stream_len = wire.len();
    wire.push(0xEE);
    wire.push(0xEE);
    let (out, used) = decompress_lz77_len(&wire).unwrap();
    assert_eq!(out, data);
    assert_eq!(used, stream_len);
    let truncated = wire[..stream_len - 1].to_vec();
    assert_eq!(
        decompress_lz77_len(&truncated),
        Err(CodecError::UnexpectedEof)
    );
}

#[test]
fn lz77_exact_wire_bytes() {
    // one literal, then the greedy matcher takes length 4 at distance 1
    let data = vec![0x41u8; 5];
    let wire = compress_lz77(&data, false).unwrap();
    assert_eq!(wire, vec![0x10, 5, 0, 0, 0b0100_0000, 0x41, 0x10, 0x00]);
    // VRAM-safe mode may not reach back one byte, so all five stay literal
    let safe = compress_lz77(&data, true).unwrap();
    assert_eq!(safe, vec![0x10, 5, 0, 0, 0x00, 0x41, 0x41, 0x41, 0x41, 0x41]);
}

#[test]
fn lz77_actually_compresses_repetitive_data() {
    let mut data = Vec::new();
    for i in 0..600usize {
        data.push((i % 8) as u8);
    }
    let wire = compress_lz77(&data, false).unwrap();
    // the greedy matcher must cover almost everything with 18-byte matches
    assert!(wire.len() < 120, "wire is {} bytes", wire.len());
    assert_eq!(decompress_lz77(&wire).unwrap(), data);
}

#[test]
fn huffman_round_trip_four_bit_single_symbol() {
    let data = vec![0x77u8; 5];
    let wire = compress_huffman(&data, true).unwrap();
    assert_eq!(decompress_huffman(&wire).unwrap(), data);
}

#[test]
fn decode_ignores_trailing_bytes() {
    let data = vec![1u8, 2, 3, 4];
    let mut wire = compress_rle(&data).unwrap();
    wire.push(0xDE);
    wire.push(0xAD);
    assert_eq!(decompress_rle(&wire).unwrap(), data);
}
