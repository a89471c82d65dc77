use tryte_compress::compress;
use tryte_compress::decode_attempt;
use tryte_compress::decompress;
use tryte_compress::encode_of;
use tryte_compress::number_to_rle;
use tryte_compress::rle_to_number;
use tryte_compress::run_length_decode;
use tryte_compress::run_length_encode;
use tryte_compress::CompressError;

fn roundtrip(input: Vec<u8>) {
    let packed = compress(&input).expect("compress should succeed");
    let unpacked = decompress(&packed).expect("decompress should succeed");
    assert_eq!(unpacked, input);
}

#[test]
fn empty_input_fails() {
    assert_eq!(compress(&vec![]), Err(CompressError::EmptyInput));
}

#[test]
fn unknown_symbol_fails() {
    assert_eq!(compress(&vec![97]), Err(CompressError::UnknownSymbol));
    assert_eq!(compress(&vec![65, 66, 0]), Err(CompressError::UnknownSymbol));
}

#[test]
fn truncated_input_fails() {
    // 11111111 decodes 'D' after five bits; the remaining three bits cannot
    // resolve any code before the buffer ends.
    assert_eq!(decompress(&vec![0xFF]), Err(CompressError::TruncatedInput));
}

#[test]
fn empty_buffer_is_truncated() {
    assert_eq!(decompress(&vec![]), Err(CompressError::TruncatedInput));
}

#[test]
fn end_sentinel_alone_decodes_empty() {
    // A single zero byte is exactly the end-of-stream code, so decode stops
    // at once with nothing decoded.
    assert_eq!(decompress(&vec![0x00]), Ok(vec![]));
}

#[test]
fn marker_without_record_is_malformed() {
    // Bits: 000001 (RUN1 marker) then 00000000 (END), padded: the run record
    // is cut off after its marker.
    assert_eq!(decompress(&vec![0b00000100, 0x00]), Err(CompressError::MalformedRunRecord));
}

#[test]
fn compress_known_bytes() {
    // "AAA" -> RUN1 'C' 'A' END -> 000001 0001 0100 00000000 + 2 pad bits.
    assert_eq!(compress(&vec![65, 65, 65]), Ok(vec![4, 80, 0]));
}

#[test]
fn decompress_known_bytes() {
    assert_eq!(decompress(&vec![4, 80, 0]), Ok(vec![65, 65, 65]));
}

#[test]
fn run_of_two_stays_literal() {
    assert_eq!(run_length_encode(&vec![65, 65]), Ok(vec![65, 65]));
}

#[test]
fn run_of_three_makes_record() {
    // RUN1, digit 'C' (value 3), literal 'A'.
    assert_eq!(run_length_encode(&vec![65, 65, 65]), Ok(vec![49, 67, 65]));
}

#[test]
fn run_length_encode_empty_fails() {
    assert_eq!(run_length_encode(&vec![]), Err(CompressError::EmptyInput));
}

#[test]
fn digit_boundary_one_digit() {
    // 26 repetitions: one digit, value 26 -> 'Z'.
    assert_eq!(run_length_encode(&vec![65; 26]), Ok(vec![49, 90, 65]));
}

#[test]
fn digit_boundary_two_digits_low() {
    // 27 = 0 + 1*27: digits '9' (0) and 'A' (1).
    assert_eq!(run_length_encode(&vec![65; 27]), Ok(vec![50, 57, 65, 65]));
}

#[test]
fn digit_boundary_two_digits_high() {
    // 728 = 26 + 26*27: digits 'Z', 'Z'.
    assert_eq!(run_length_encode(&vec![65; 728]), Ok(vec![50, 90, 90, 65]));
}

#[test]
fn digit_boundary_three_digits_low() {
    // 729 = 0 + 0*27 + 1*729: digits '9', '9', 'A'.
    assert_eq!(run_length_encode(&vec![65; 729]), Ok(vec![51, 57, 57, 65, 65]));
}

#[test]
fn digit_boundary_three_digits_high() {
    // 19682 = 26 + 26*27 + 26*729: digits 'Z', 'Z', 'Z'.
    assert_eq!(run_length_encode(&vec![65; 19682]), Ok(vec![51, 90, 90, 90, 65]));
}

#[test]
fn digit_boundary_splits_past_limit() {
    // 19683 repetitions: a full three-digit record plus one bare literal.
    assert_eq!(run_length_encode(&vec![65; 19683]), Ok(vec![51, 90, 90, 90, 65, 65]));
}

#[test]
fn twenty_nine_repeats_one_record() {
    // 29 = 2 + 1*27: one two-digit record, RUN2 'B' 'A', literal 'A'.
    assert_eq!(run_length_encode(&vec![65; 29]), Ok(vec![50, 66, 65, 65]));
}

#[test]
fn twenty_nine_repeats_round_trip() {
    roundtrip(vec![65; 29]);
}

#[test]
fn run_length_decode_inverts_records() {
    assert_eq!(run_length_decode(&vec![49, 90, 65]), Ok(vec![65; 26]));
    assert_eq!(run_length_decode(&vec![50, 57, 65, 66]), Ok(vec![66; 27]));
    assert_eq!(run_length_decode(&vec![51, 57, 57, 65, 90]), Ok(vec![90; 729]));
}

#[test]
fn run_length_decode_rejects_truncated_records() {
    assert_eq!(run_length_decode(&vec![49]), Err(CompressError::MalformedRunRecord));
    assert_eq!(run_length_decode(&vec![49, 90]), Err(CompressError::MalformedRunRecord));
    assert_eq!(run_length_decode(&vec![50, 90, 90]), Err(CompressError::MalformedRunRecord));
    assert_eq!(run_length_decode(&vec![51, 90, 90, 90]), Err(CompressError::MalformedRunRecord));
    // A marker whose "digit" is another marker is malformed too.
    assert_eq!(run_length_decode(&vec![49, 49, 65]), Err(CompressError::MalformedRunRecord));
}

#[test]
fn rle_to_number_weighs_digits() {
    assert_eq!(rle_to_number(90, 0, 0), 26);
    assert_eq!(rle_to_number(57, 65, 0), 27);
    assert_eq!(rle_to_number(90, 90, 0), 728);
    assert_eq!(rle_to_number(57, 57, 65), 729);
    assert_eq!(rle_to_number(90, 90, 90), 19682);
}

#[test]
fn number_to_rle_picks_fewest_digits() {
    let mut out: Vec<u8> = Vec::new();
    number_to_rle(&mut out, 65, 26);
    assert_eq!(out, vec![49, 90, 65]);
    let mut out2: Vec<u8> = Vec::new();
    number_to_rle(&mut out2, 65, 29);
    assert_eq!(out2, vec![50, 66, 65, 65]);
    let mut out3: Vec<u8> = Vec::new();
    number_to_rle(&mut out3, 66, 19682);
    assert_eq!(out3, vec![51, 90, 90, 90, 66]);
}

#[test]
fn encode_of_known_codes() {
    assert_eq!(encode_of(65), Ok((0b0100, 4)));
    assert_eq!(encode_of(57), Ok((0b0011, 4)));
    assert_eq!(encode_of(95), Ok((0b00000000, 8)));
    assert_eq!(encode_of(97), Err(CompressError::UnknownSymbol));
}

#[test]
fn decode_attempt_known_codes() {
    assert_eq!(decode_attempt(0b0100, 4), Some(65));
    assert_eq!(decode_attempt(0b0011, 4), Some(57));
    assert_eq!(decode_attempt(0b0000, 4), None);
    assert_eq!(decode_attempt(0b00000000, 8), Some(95));
}

#[test]
fn tables_are_idempotent() {
    // Building the lookup twice gives identical bits, lengths and decode
    // behavior for every symbol and every probe.
    for s in 0..=255u8 {
        assert_eq!(encode_of(s), encode_of(s));
    }
    for len in 0..=9u8 {
        for key in 0..=255u8 {
            assert_eq!(decode_attempt(key, len), decode_attempt(key, len));
        }
    }
}

#[test]
fn codes_are_prefix_free() {
    let mut codes: Vec<(u8, u8)> = Vec::new();
    for s in 0..=255u8 {
        if let Ok(code) = encode_of(s) {
            codes.push(code);
        }
    }
    assert_eq!(codes.len(), 31);
    for &(bits_a, len_a) in &codes {
        for &(bits_b, len_b) in &codes {
            if (bits_a, len_a) != (bits_b, len_b) && len_a <= len_b {
                assert_ne!(bits_b >> (len_b - len_a), bits_a);
            }
        }
    }
}

#[test]
fn round_trip_single_symbol() {
    roundtrip(vec![90]);
}

#[test]
fn round_trip_all_trytes() {
    let mut input: Vec<u8> = vec![57];
    for c in 65..=90u8 {
        input.push(c);
    }
    roundtrip(input);
}

#[test]
fn round_trip_mixed_runs() {
    let mut input: Vec<u8> = Vec::new();
    input.extend(vec![72; 4]);
    input.push(69);
    input.extend(vec![76; 2]);
    input.push(76);
    input.push(79);
    input.extend(vec![57; 40]);
    input.extend(vec![90; 3]);
    roundtrip(input);
}

#[test]
fn round_trip_long_runs() {
    roundtrip(vec![66; 729]);
    roundtrip(vec![67; 19683]);
    let mut input = vec![68; 20000];
    input.push(57);
    input.extend(vec![68; 5]);
    roundtrip(input);
}
