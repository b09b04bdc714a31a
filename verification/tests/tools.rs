use gba_tools::format_offset;
use gba_tools::search::byte_deltas;
use gba_tools::search::delta;
use gba_tools::search::even_bytes;
use gba_tools::search::find_delta_matches;
use gba_tools::search::letter_candidates;
use gba_tools::search::odd_bytes;
use gba_tools::search::read_u16_values;
use gba_tools::search::read_u32_values;

#[test]
fn format_offset_hex_pads_to_six_digits() {
    assert_eq!(format_offset(0x1234, true), "001234");
    assert_eq!(format_offset(0, true), "000000");
    assert_eq!(format_offset(0xABCDEF1, true), "ABCDEF1");
}

#[test]
fn format_offset_decimal_is_plain() {
    assert_eq!(format_offset(255, false), "255");
    assert_eq!(format_offset(0, false), "0");
    assert_eq!(format_offset(1000000, false), "1000000");
}

#[test]
fn byte_deltas_wrap_modulo_256() {
    assert_eq!(byte_deltas(&vec![10, 20, 15]), vec![10, 251]);
    assert_eq!(byte_deltas(&vec![0xFE, 0x02]), vec![4]);
    assert_eq!(byte_deltas(&vec![]), Vec::<i64>::new());
    assert_eq!(byte_deltas(&vec![7]), Vec::<i64>::new());
}

#[test]
fn shifted_text_straddling_the_wraparound_is_found() {
    // "abc" shifted so that its code points cross 0xFF: the wrapping
    // difference series still matches
    let plain = vec![0x61u8, 0x62, 0x63];
    let shifted = vec![0x00u8, 0xFE, 0xFF, 0x00, 0x11];
    let needle = byte_deltas(&plain);
    let mut series = vec![0i64];
    series.extend(byte_deltas(&shifted));
    let hits = find_delta_matches(&series, &needle);
    // the hit is one past the text start, as the sentinel series reports it
    assert_eq!(hits, vec![2]);
}

#[test]
fn delta_gives_successive_differences() {
    assert_eq!(delta(&vec![5, 10, 7]), vec![5, -3]);
    assert_eq!(delta(&vec![]), Vec::<i64>::new());
    assert_eq!(delta(&vec![42]), Vec::<i64>::new());
    assert_eq!(delta(&vec![i64::MAX, i64::MIN]), vec![1]);
}

#[test]
fn u16_reads_respect_byte_order() {
    let data = vec![0x34, 0x12, 0xFF, 0x00, 0xAB];
    assert_eq!(read_u16_values(&data, false), vec![0x1234, 0x00FF]);
    assert_eq!(read_u16_values(&data, true), vec![0x3412, 0xFF00]);
}

#[test]
fn u32_reads_respect_byte_order() {
    let data = vec![0x78, 0x56, 0x34, 0x12, 0x01];
    assert_eq!(read_u32_values(&data, false), vec![0x12345678]);
    assert_eq!(read_u32_values(&data, true), vec![0x78563412]);
}

#[test]
fn byte_planes_split_and_pad() {
    let data = vec![1u8, 2, 3, 4, 5];
    assert_eq!(odd_bytes(&data), vec![1, 3, 5]);
    assert_eq!(even_bytes(&data), vec![2, 4, 0]);
    assert_eq!(odd_bytes(&vec![]), Vec::<u8>::new());
}

#[test]
fn delta_matching_finds_every_offset() {
    let haystack = vec![9i64, 1, 2, 1, 2, 1, 2, 9];
    let needle = vec![1i64, 2, 1];
    assert_eq!(find_delta_matches(&haystack, &needle), vec![1, 3]);
    assert_eq!(find_delta_matches(&haystack, &vec![8i64]), Vec::<usize>::new());
}

#[test]
fn shifted_text_is_found_through_deltas() {
    // the pattern "abca" shifted by 7 still matches through its deltas
    let plain = vec![0x61i64, 0x62, 0x63, 0x61];
    let shifted = vec![0x68i64, 0x69, 0x6A, 0x68, 0x00];
    let hits = find_delta_matches(&delta(&shifted), &delta(&plain));
    assert_eq!(hits, vec![0]);
}

#[test]
fn letter_candidates_wrap_around() {
    let table = letter_candidates(0x80, b'i');
    assert_eq!(table.len(), 26);
    // 'a' maps eight places before the found byte for the letter 'i'
    assert_eq!(table[0], 0x78);
    assert_eq!(table[8], 0x80);
    let high = letter_candidates(0xFF, b'a');
    assert_eq!(high[0], 0xFF);
    assert_eq!(high[1], 0x00);
}
