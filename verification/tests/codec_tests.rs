use gps_data_codec::codec::{decode, encode, Sample, YEAR2010};
use gps_data_codec::varint::{
    decode_signed_value_from_string, decode_unsigned_value_from_string, encode_signed_number,
    encode_unsigned_number,
};
use gps_data_codec::CodecError;

fn sample(timestamp: i64, lat_e5: i64, lon_e5: i64) -> Sample {
    Sample {
        timestamp,
        lat_e5,
        lon_e5,
    }
}

#[test]
fn unsigned_round_trip() {
    let values: Vec<i64> = vec![
        0,
        1,
        17,
        31,
        32,
        33,
        1023,
        1024,
        123456789,
        1262304000,
        (1i64 << 62) - 1,
        i64::MAX,
    ];
    for &n in &values {
        let encoded = encode_unsigned_number(n);
        let d = decode_unsigned_value_from_string(&encoded, 0).unwrap();
        assert_eq!(d.value, n);
        assert_eq!(d.offset, encoded.len());
    }
}

#[test]
fn signed_round_trip() {
    let values: Vec<i64> = vec![
        0,
        1,
        -1,
        15,
        -16,
        16,
        -17,
        100000,
        -100000,
        (1i64 << 62) - 1,
        -(1i64 << 62),
    ];
    for &n in &values {
        let encoded = encode_signed_number(n);
        let d = decode_signed_value_from_string(&encoded, 0).unwrap();
        assert_eq!(d.value, n);
        assert_eq!(d.offset, encoded.len());
    }
}

#[test]
fn unsigned_minimal_lengths() {
    // one byte per five bits of the value, at least one byte
    assert_eq!(encode_unsigned_number(0).len(), 1);
    assert_eq!(encode_unsigned_number(31).len(), 1);
    assert_eq!(encode_unsigned_number(32).len(), 2);
    assert_eq!(encode_unsigned_number(1023).len(), 2);
    assert_eq!(encode_unsigned_number(1024).len(), 3);
    assert_eq!(encode_unsigned_number(1i64 << 60).len(), 13);
}

#[test]
fn unsigned_exact_bytes() {
    // a final byte carries the value plus the bias
    assert_eq!(encode_unsigned_number(17), vec![80u8]);
    // 174 = 14 + 32 * 5: continuation byte 14 + 95, final byte 5 + 63
    assert_eq!(encode_unsigned_number(174), vec![109u8, 68u8]);
}

#[test]
fn signed_exact_bytes() {
    // zig-zag: -1 maps to 1, 1 maps to 2
    assert_eq!(encode_signed_number(0), vec![63u8]);
    assert_eq!(encode_signed_number(-1), vec![64u8]);
    assert_eq!(encode_signed_number(1), vec![65u8]);
    // 3850000 zig-zags to 7700000, whose groups are 0, 17, 31, 10, 7
    assert_eq!(encode_signed_number(3850000), vec![95u8, 112u8, 126u8, 105u8, 70u8]);
}

#[test]
fn decode_at_offset() {
    let mut bytes = encode_unsigned_number(40);
    bytes.extend(encode_signed_number(-5));
    let first = decode_unsigned_value_from_string(&bytes, 0).unwrap();
    assert_eq!(first.value, 40);
    let second = decode_signed_value_from_string(&bytes, first.offset).unwrap();
    assert_eq!(second.value, -5);
    assert_eq!(second.offset, bytes.len());
}

#[test]
fn empty_input() {
    assert_eq!(encode(&vec![]), Ok(vec![]));
    assert_eq!(decode(&vec![]), Ok(vec![]));
}

#[test]
fn rejects_unsorted_timestamps() {
    // latitude 1.0 and longitude 1.0 at five decimals are 100000 units
    let samples = vec![sample(100, 100000, 100000), sample(50, 200000, 200000)];
    let r = encode(&samples);
    assert_eq!(r, Err(CodecError::NotSorted));
    assert_eq!(CodecError::NotSorted.message(), "Input data is not sorted");
}

#[test]
fn accepts_equal_timestamps() {
    let samples = vec![sample(100, 0, 0), sample(100, 1, -1)];
    let encoded = encode(&samples).unwrap();
    assert_eq!(decode(&encoded), Ok(samples));
}

#[test]
fn concrete_vector_round_trip() {
    // (1262304000, 38.5, -120.2) and (1262304060, 40.7, -120.95) at
    // five-decimal precision
    let samples = vec![
        sample(1262304000, 3850000, -12020000),
        sample(1262304060, 4070000, -12095000),
    ];
    let encoded = encode(&samples).unwrap();
    // the first timestamp equals the anchor, so its signed delta is zero
    assert_eq!(samples[0].timestamp, YEAR2010);
    assert_eq!(encoded[0], 63);
    assert_eq!(decode(&encoded), Ok(samples));
}

#[test]
fn longer_round_trip() {
    let mut samples = Vec::new();
    for i in 0..50i64 {
        samples.push(sample(
            YEAR2010 - 1000 + 37 * i,
            -5000000 + 999 * i,
            17000000 - 1234 * i,
        ));
    }
    let encoded = encode(&samples).unwrap();
    assert_eq!(decode(&encoded), Ok(samples));
}

#[test]
fn stream_is_printable() {
    let samples = vec![
        sample(YEAR2010 + 5, 9000000, -18000000),
        sample(YEAR2010 + 3600, -9000000, 18000000),
    ];
    let encoded = encode(&samples).unwrap();
    for &b in &encoded {
        assert!(63 <= b && b <= 126);
    }
}

#[test]
fn rejects_truncated_stream() {
    // bytes with the continuation flag set and no final byte
    let r = decode(&vec![95u8, 95u8, 95u8]);
    assert_eq!(r, Err(CodecError::MalformedStream));
    assert_eq!(CodecError::MalformedStream.message(), "Malformed stream");
}

#[test]
fn rejects_truncated_tail() {
    // a full first sample, then one lone continuation byte
    let samples = vec![sample(YEAR2010, 0, 0)];
    let mut encoded = encode(&samples).unwrap();
    encoded.push(95u8);
    assert_eq!(decode(&encoded), Err(CodecError::MalformedStream));
}

#[test]
fn rejects_bytes_below_the_bias() {
    // bytes below 63 unbias to values with the continuation flag set, so a
    // stream of them never reaches a final byte
    assert_eq!(decode(&vec![0u8, 10u8, 62u8]), Err(CodecError::MalformedStream));
}

#[test]
fn rejects_oversized_value() {
    // fourteen continuation groups overflow the unsigned domain
    let mut bytes = vec![96u8; 14];
    bytes.push(64u8);
    assert_eq!(
        decode_unsigned_value_from_string(&bytes, 0),
        Err(CodecError::MalformedStream)
    );
    assert_eq!(decode(&bytes), Err(CodecError::MalformedStream));
}

#[test]
fn first_timestamp_before_anchor() {
    // the first delta is signed, so a sequence may start before the anchor
    let samples = vec![sample(100, 12345, -54321), sample(200, 12346, -54322)];
    let encoded = encode(&samples).unwrap();
    assert_eq!(decode(&encoded), Ok(samples));
}

#[test]
fn all_zero_deltas_exact_bytes() {
    // both samples sit on the anchor: every channel delta is zero, and the
    // zero varint is the single byte 63 in the signed and unsigned codec
    let samples = vec![sample(YEAR2010, 0, 0), sample(YEAR2010, 0, 0)];
    let encoded = encode(&samples).unwrap();
    assert_eq!(encoded, vec![63u8; 6]);
}

#[test]
fn decode_reconstructs_absolute_values() {
    let samples = vec![
        sample(YEAR2010 + 60, 100000, -100000),
        sample(YEAR2010 + 120, 100001, -100002),
    ];
    let encoded = encode(&samples).unwrap();
    let decoded = decode(&encoded).unwrap();
    assert_eq!(decoded.len(), 2);
    assert_eq!(decoded[0].timestamp, YEAR2010 + 60);
    assert_eq!(decoded[1].lat_e5, 100001);
    assert_eq!(decoded[1].lon_e5, -100002);
}
