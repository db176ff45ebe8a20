use vstd::prelude::*;
use crate::CodecError;
use crate::varint::{
    DecodingResult, decode_signed_value_from_string, decode_unsigned_value_from_string,
    encode_signed_number, encode_unsigned_number, encode_u_spec, lemma_encode_u_bytes,
    lemma_parse_signed_concat, lemma_parse_unsigned_concat, parse_signed, parse_unsigned, zigzag,
};

verus! {

// ---------------------------------------------------------------------------
// Sequences of geotemporal samples, delta-chained over three channels.
//
// A sample is a timestamp in whole seconds and a coordinate pair held at
// five-decimal precision, i.e. in units of 1e-5 degree.  The encoder emits,
// per sample, the timestamp delta, the latitude delta and the longitude
// delta against running references seeded at (YEAR2010, 0, 0).  The first
// timestamp delta is signed (the anchor may lie past the first sample);
// later ones must be non-negative and go through the unsigned codec; the
// coordinate deltas are always signed.
// ---------------------------------------------------------------------------

/// The epoch anchor the running timestamp reference starts from:
/// 2010-01-01T00:00:00Z in seconds.
pub const YEAR2010: i64 = 1262304000;

/// One sample: a timestamp in seconds and coordinates in units of
/// 1e-5 degree.
#[derive(Clone, Copy, PartialEq, Eq, Structural, Debug)]
pub struct Sample {
    pub timestamp: i64,
    pub lat_e5: i64,
    pub lon_e5: i64,
}

/// The band the encoder accepts a channel value from; it keeps every delta
/// between two accepted values, and its zig-zag image, inside the varint
/// codec's domain.
pub open spec fn in_band(v: int) -> bool {
    -0x2000_0000_0000_0000 <= v < 0x2000_0000_0000_0000
}

/// All three channels of a sample are in the accepted band.
pub open spec fn sample_in_band(s: Sample) -> bool {
    in_band(s.timestamp as int) && in_band(s.lat_e5 as int) && in_band(s.lon_e5 as int)
}

/// Every sample of the sequence is in the accepted band.
pub open spec fn samples_in_band(s: Seq<Sample>) -> bool {
    forall|i: int| 0 <= i < s.len() ==> sample_in_band(#[trigger] s[i])
}

/// The encoder's ordering demand: timestamps never decrease.
pub open spec fn timestamps_sorted(s: Seq<Sample>) -> bool {
    forall|i: int| 0 < i < s.len() ==> #[trigger] s[i].timestamp >= s[i - 1].timestamp
}

/// The bytes one sample contributes, given the running references.  The
/// timestamp delta of the first sample is signed; a negative later delta is
/// the not-sorted case and contributes nothing (the encoder has failed by
/// then).
pub open spec fn encode_sample_spec(s: Sample, pt: int, pla: int, plo: int, first: bool) -> Seq<
    u8,
> {
    let dt = s.timestamp - pt;
    let tbytes = if first {
        encode_u_spec(zigzag(dt))
    } else if dt >= 0 {
        encode_u_spec(dt as nat)
    } else {
        Seq::empty()
    };
    tbytes + encode_u_spec(zigzag(s.lat_e5 - pla)) + encode_u_spec(zigzag(s.lon_e5 - plo))
}

/// The stream from sample `i` on, given the running references.
pub open spec fn encode_from(s: Seq<Sample>, i: int, pt: int, pla: int, plo: int, first: bool) -> Seq<u8>
    decreases s.len() - i when 0 <= i <= s.len()
{
    if i == s.len() {
        Seq::empty()
    } else {
        encode_sample_spec(s[i], pt, pla, plo, first) + encode_from(
            s,
            i + 1,
            s[i].timestamp as int,
            s[i].lat_e5 as int,
            s[i].lon_e5 as int,
            false,
        )
    }
}

/// The whole encoded stream for `s`.
pub open spec fn encode_spec(s: Seq<Sample>) -> Seq<u8> {
    encode_from(s, 0, YEAR2010 as int, 0, 0, true)
}

/// Whether a channel value reconstructed by the decoder still fits the
/// 64-bit signed domain.
pub open spec fn fits_i64(v: int) -> bool {
    -0x8000_0000_0000_0000 <= v < 0x8000_0000_0000_0000
}

/// The samples read from stream `s` given the running references, or `None`
/// when the stream is not a whole number of well-formed samples, or a
/// reconstructed channel value leaves the 64-bit signed domain.
pub open spec fn decode_from(s: Seq<u8>, pt: int, pla: int, plo: int, first: bool) -> Option<
    Seq<Sample>,
>
    decreases s.len(),
{
    if s.len() == 0 {
        Some(Seq::empty())
    } else {
        let t_parse = if first {
            parse_signed(s)
        } else {
            match parse_unsigned(s) {
                None => None,
                Some((v, k)) => Some((v as int, k)),
            }
        };
        match t_parse {
            None => None,
            Some((dt, k1)) => {
                if !(1 <= k1 <= s.len()) {
                    None
                } else {
                    let rest1 = s.subrange(k1 as int, s.len() as int);
                    match parse_signed(rest1) {
                        None => None,
                        Some((dla, k2)) => {
                            if !(1 <= k2 <= rest1.len()) {
                                None
                            } else {
                                let rest2 = rest1.subrange(k2 as int, rest1.len() as int);
                                match parse_signed(rest2) {
                                    None => None,
                                    Some((dlo, k3)) => {
                                        if !(1 <= k3 <= rest2.len()) {
                                            None
                                        } else {
                                            let t = pt + dt;
                                            let la = pla + dla;
                                            let lo = plo + dlo;
                                            if !(fits_i64(t) && fits_i64(la) && fits_i64(lo)) {
                                                None
                                            } else {
                                                let rest3 = rest2.subrange(
                                                    k3 as int,
                                                    rest2.len() as int,
                                                );
                                                match decode_from(rest3, t, la, lo, false) {
                                                    None => None,
                                                    Some(tail) => Some(
                                                        seq![
                                                            Sample {
                                                                timestamp: t as i64,
                                                                lat_e5: la as i64,
                                                                lon_e5: lo as i64,
                                                            },
                                                        ] + tail,
                                                    ),
                                                }
                                            }
                                        }
                                    },
                                }
                            }
                        },
                    }
                }
            },
        }
    }
}

/// The samples a well-formed stream denotes, from the seeded references.
pub open spec fn decode_spec(s: Seq<u8>) -> Option<Seq<Sample>> {
    decode_from(s, YEAR2010 as int, 0, 0, true)
}

// ---------------------------------------------------------------------------
// The executable encoder and decoder.
// ---------------------------------------------------------------------------

/// Encodes an ordered sample sequence into the byte stream, or fails with
/// `NotSorted`, and no output, exactly when some timestamp is below its
/// predecessor's.
pub fn encode(samples: &Vec<Sample>) -> (r: Result<Vec<u8>, CodecError>)
    requires
        samples_in_band(samples@),
    ensures
        match r {
            Ok(out) => timestamps_sorted(samples@) && out@ == encode_spec(samples@),
            Err(e) => e == CodecError::NotSorted && !timestamps_sorted(samples@),
        },
{
    let n: usize = samples.len();
    let mut out: Vec<u8> = Vec::new();
    let mut prev_t: i64 = YEAR2010;
    let mut prev_lat: i64 = 0;
    let mut prev_lon: i64 = 0;
    let mut i: usize = 0;
    while i < n
        invariant
            i <= n,
            n == samples@.len(),
            samples_in_band(samples@),
            i == 0 ==> prev_t == YEAR2010 && prev_lat == 0 && prev_lon == 0,
            i >= 1 ==> prev_t == samples@[i - 1].timestamp && prev_lat == samples@[i - 1].lat_e5
                && prev_lon == samples@[i - 1].lon_e5,
            forall|j: int| 0 < j < i ==> (#[trigger] samples@[j]).timestamp >= samples@[j
                - 1].timestamp,
            encode_spec(samples@) == out@ + encode_from(
                samples@,
                i as int,
                prev_t as int,
                prev_lat as int,
                prev_lon as int,
                i == 0,
            ),
        decreases n - i,
    {
        let s: Sample = samples[i];
        proof {
            assert(sample_in_band(samples@[i as int]));
            if i >= 1 {
                assert(sample_in_band(samples@[i - 1]));
            }
        }
        let ghost pre_out = out@;
        let ghost first = i == 0;
        let dt: i64 = s.timestamp - prev_t;
        if i == 0 {
            let mut tb = encode_signed_number(dt);
            out.append(&mut tb);
        } else {
            if dt < 0 {
                proof {
                    assert(samples@[i as int].timestamp < samples@[i - 1].timestamp);
                    assert(!timestamps_sorted(samples@));
                }
                return Err(CodecError::NotSorted);
            }
            let mut tb = encode_unsigned_number(dt);
            out.append(&mut tb);
        }
        let dla: i64 = s.lat_e5 - prev_lat;
        let mut lab = encode_signed_number(dla);
        out.append(&mut lab);
        let dlo: i64 = s.lon_e5 - prev_lon;
        let mut lob = encode_signed_number(dlo);
        out.append(&mut lob);
        proof {
            let sv = samples@;
            let smp = sv[i as int];
            let e1 = if first {
                encode_u_spec(zigzag(dt as int))
            } else {
                encode_u_spec(dt as nat)
            };
            let e2 = encode_u_spec(zigzag(dla as int));
            let e3 = encode_u_spec(zigzag(dlo as int));
            assert(encode_sample_spec(smp, prev_t as int, prev_lat as int, prev_lon as int, first)
                == e1 + e2 + e3);
            let tail = encode_from(
                sv,
                i + 1,
                smp.timestamp as int,
                smp.lat_e5 as int,
                smp.lon_e5 as int,
                false,
            );
            assert(encode_from(sv, i as int, prev_t as int, prev_lat as int, prev_lon as int, first)
                == (e1 + e2 + e3) + tail);
            assert(out@ =~= pre_out + e1 + e2 + e3);
            assert(pre_out + ((e1 + e2 + e3) + tail) =~= (pre_out + e1 + e2 + e3) + tail);
        }
        prev_t = s.timestamp;
        prev_lat = s.lat_e5;
        prev_lon = s.lon_e5;
        i = i + 1;
    }
    proof {
        assert(encode_from(
            samples@,
            n as int,
            prev_t as int,
            prev_lat as int,
            prev_lon as int,
            n == 0,
        ) =~= Seq::<u8>::empty());
        assert(out@ + Seq::<u8>::empty() =~= out@);
    }
    Ok(out)
}

/// Joins an already-decoded prefix with what the rest of the stream denotes.
pub open spec fn opt_prepend(pre: Seq<Sample>, rest: Option<Seq<Sample>>) -> Option<Seq<Sample>> {
    match rest {
        None => None,
        Some(tail) => Some(pre + tail),
    }
}

/// Decodes a byte stream back into the sample sequence it denotes, or fails
/// with `MalformedStream`, and no output, exactly when the stream is not a
/// whole number of well-formed samples.
#[verifier::rlimit(100)]
pub fn decode(encoded: &Vec<u8>) -> (r: Result<Vec<Sample>, CodecError>)
    ensures
        match r {
            Ok(out) => decode_spec(encoded@) == Some(out@),
            Err(e) => e == CodecError::MalformedStream && decode_spec(encoded@) is None,
        },
{
    let len: usize = encoded.len();
    let mut cursor: usize = 0;
    let mut prev_t: i64 = YEAR2010;
    let mut prev_lat: i64 = 0;
    let mut prev_lon: i64 = 0;
    let mut first: bool = true;
    let mut out: Vec<Sample> = Vec::new();
    proof {
        assert(encoded@.subrange(0, len as int) =~= encoded@);
        match decode_from(encoded@, YEAR2010 as int, 0, 0, true) {
            None => {},
            Some(t) => {
                assert(Seq::<Sample>::empty() + t =~= t);
            },
        }
    }
    while cursor < len
        invariant
            cursor <= len,
            len == encoded@.len(),
            decode_spec(encoded@) == opt_prepend(
                out@,
                decode_from(
                    encoded@.subrange(cursor as int, len as int),
                    prev_t as int,
                    prev_lat as int,
                    prev_lon as int,
                    first,
                ),
            ),
        decreases len - cursor,
    {
        let ghost suf = encoded@.subrange(cursor as int, len as int);
        let tres: Result<DecodingResult, CodecError> = if first {
            decode_signed_value_from_string(encoded, cursor)
        } else {
            decode_unsigned_value_from_string(encoded, cursor)
        };
        let td: DecodingResult = match tres {
            Ok(d) => d,
            Err(_) => {
                proof {
                    assert(decode_from(suf, prev_t as int, prev_lat as int, prev_lon as int, first)
                        is None);
                }
                return Err(CodecError::MalformedStream);
            },
        };
        let ghost k1 = (td.offset - cursor) as nat;
        proof {
            assert(encoded@.subrange(td.offset as int, len as int) =~= suf.subrange(
                k1 as int,
                suf.len() as int,
            ));
        }
        let lad: DecodingResult = match decode_signed_value_from_string(encoded, td.offset) {
            Ok(d) => d,
            Err(_) => {
                proof {
                    assert(decode_from(suf, prev_t as int, prev_lat as int, prev_lon as int, first)
                        is None);
                }
                return Err(CodecError::MalformedStream);
            },
        };
        let ghost k2 = (lad.offset - td.offset) as nat;
        proof {
            let rest1 = suf.subrange(k1 as int, suf.len() as int);
            assert(encoded@.subrange(lad.offset as int, len as int) =~= rest1.subrange(
                k2 as int,
                rest1.len() as int,
            ));
        }
        let lod: DecodingResult = match decode_signed_value_from_string(encoded, lad.offset) {
            Ok(d) => d,
            Err(_) => {
                proof {
                    assert(decode_from(suf, prev_t as int, prev_lat as int, prev_lon as int, first)
                        is None);
                }
                return Err(CodecError::MalformedStream);
            },
        };
        let ghost k3 = (lod.offset - lad.offset) as nat;
        proof {
            let rest1 = suf.subrange(k1 as int, suf.len() as int);
            let rest2 = rest1.subrange(k2 as int, rest1.len() as int);
            assert(encoded@.subrange(lod.offset as int, len as int) =~= rest2.subrange(
                k3 as int,
                rest2.len() as int,
            ));
        }
        let new_t: i64 = match add_checked(prev_t, td.value) {
            Some(v) => v,
            None => {
                proof {
                    assert(decode_from(suf, prev_t as int, prev_lat as int, prev_lon as int, first)
                        is None);
                }
                return Err(CodecError::MalformedStream);
            },
        };
        let new_lat: i64 = match add_checked(prev_lat, lad.value) {
            Some(v) => v,
            None => {
                proof {
                    assert(decode_from(suf, prev_t as int, prev_lat as int, prev_lon as int, first)
                        is None);
                }
                return Err(CodecError::MalformedStream);
            },
        };
        let new_lon: i64 = match add_checked(prev_lon, lod.value) {
            Some(v) => v,
            None => {
                proof {
                    assert(decode_from(suf, prev_t as int, prev_lat as int, prev_lon as int, first)
                        is None);
                }
                return Err(CodecError::MalformedStream);
            },
        };
        let smp = Sample { timestamp: new_t, lat_e5: new_lat, lon_e5: new_lon };
        proof {
            let tail_opt = decode_from(
                encoded@.subrange(lod.offset as int, len as int),
                new_t as int,
                new_lat as int,
                new_lon as int,
                false,
            );
            assert(decode_from(suf, prev_t as int, prev_lat as int, prev_lon as int, first)
                == opt_prepend(seq![smp], tail_opt));
            assert(opt_prepend(out@, opt_prepend(seq![smp], tail_opt)) == opt_prepend(
                out@.push(smp),
                tail_opt,
            )) by {
                match tail_opt {
                    None => {},
                    Some(tail) => {
                        assert(out@ + (seq![smp] + tail) =~= out@.push(smp) + tail);
                    },
                }
            }
        }
        out.push(smp);
        prev_t = new_t;
        prev_lat = new_lat;
        prev_lon = new_lon;
        first = false;
        cursor = lod.offset;
    }
    proof {
        assert(encoded@.subrange(cursor as int, len as int) =~= Seq::<u8>::empty());
        assert(out@ + Seq::<Sample>::empty() =~= out@);
    }
    Ok(out)
}

// ---------------------------------------------------------------------------
// The round-trip law of the sequence layer.
// ---------------------------------------------------------------------------

/// One decoding step: a stream assembled from three parsed deltas and a
/// well-formed tail denotes the sample those deltas reconstruct, followed by
/// the tail's samples.
#[verifier::spinoff_prover]
proof fn lemma_decode_one(
    e1: Seq<u8>,
    e2: Seq<u8>,
    e3: Seq<u8>,
    rest: Seq<u8>,
    dt: int,
    dla: int,
    dlo: int,
    pt: int,
    pla: int,
    plo: int,
    first: bool,
    tail: Seq<Sample>,
)
    requires
        first ==> parse_signed(e1 + (e2 + (e3 + rest))) == Some((dt, e1.len())),
        !first ==> dt >= 0 && parse_unsigned(e1 + (e2 + (e3 + rest))) == Some(
            ((dt as nat), e1.len()),
        ),
        parse_signed(e2 + (e3 + rest)) == Some((dla, e2.len())),
        parse_signed(e3 + rest) == Some((dlo, e3.len())),
        e1.len() >= 1,
        e2.len() >= 1,
        e3.len() >= 1,
        fits_i64(pt + dt),
        fits_i64(pla + dla),
        fits_i64(plo + dlo),
        decode_from(rest, pt + dt, pla + dla, plo + dlo, false) == Some(tail),
    ensures
        decode_from(e1 + (e2 + (e3 + rest)), pt, pla, plo, first) == Some(
            seq![
                Sample {
                    timestamp: (pt + dt) as i64,
                    lat_e5: (pla + dla) as i64,
                    lon_e5: (plo + dlo) as i64,
                },
            ] + tail,
        ),
{
    let stream = e1 + (e2 + (e3 + rest));
    let rest1 = stream.subrange(e1.len() as int, stream.len() as int);
    assert(rest1 =~= e2 + (e3 + rest));
    let rest2 = rest1.subrange(e2.len() as int, rest1.len() as int);
    assert(rest2 =~= e3 + rest);
    let rest3 = rest2.subrange(e3.len() as int, rest2.len() as int);
    assert(rest3 =~= rest);
}

/// Induction step behind `lemma_round_trip`: from any references the encoder
/// can hold, decoding the stream for the remaining samples yields exactly
/// those samples.
#[verifier::rlimit(100)]
#[verifier::spinoff_prover]
proof fn lemma_round_trip_from(s: Seq<Sample>, i: int, pt: int, pla: int, plo: int, first: bool)
    requires
        0 <= i <= s.len(),
        samples_in_band(s),
        timestamps_sorted(s),
        in_band(pt),
        in_band(pla),
        in_band(plo),
        !first && i < s.len() ==> pt <= s[i].timestamp,
    ensures
        decode_from(encode_from(s, i, pt, pla, plo, first), pt, pla, plo, first) == Some(
            s.subrange(i, s.len() as int),
        ),
    decreases s.len() - i,
{
    if i == s.len() {
        assert(s.subrange(i, s.len() as int) =~= Seq::<Sample>::empty());
    } else {
        let smp = s[i];
        assert(sample_in_band(smp));
        let dt = smp.timestamp - pt;
        let dla = smp.lat_e5 - pla;
        let dlo = smp.lon_e5 - plo;
        let e1 = if first {
            encode_u_spec(zigzag(dt))
        } else {
            encode_u_spec(dt as nat)
        };
        let e2 = encode_u_spec(zigzag(dla));
        let e3 = encode_u_spec(zigzag(dlo));
        let rest = encode_from(
            s,
            i + 1,
            smp.timestamp as int,
            smp.lat_e5 as int,
            smp.lon_e5 as int,
            false,
        );
        let stream = encode_from(s, i, pt, pla, plo, first);
        if first {
            lemma_encode_u_bytes(zigzag(dt));
        } else {
            assert(pt <= smp.timestamp);
            lemma_encode_u_bytes(dt as nat);
        }
        lemma_encode_u_bytes(zigzag(dla));
        lemma_encode_u_bytes(zigzag(dlo));
        assert(encode_sample_spec(smp, pt, pla, plo, first) == e1 + e2 + e3);
        assert(stream == (e1 + e2 + e3) + rest);
        assert(stream =~= e1 + (e2 + (e3 + rest)));
        if first {
            lemma_parse_signed_concat(dt, e2 + (e3 + rest));
        } else {
            lemma_parse_unsigned_concat(dt as nat, e2 + (e3 + rest));
        }
        lemma_parse_signed_concat(dla, e3 + rest);
        lemma_parse_signed_concat(dlo, rest);
        lemma_round_trip_from(
            s,
            i + 1,
            smp.timestamp as int,
            smp.lat_e5 as int,
            smp.lon_e5 as int,
            false,
        );
        lemma_decode_one(
            e1,
            e2,
            e3,
            rest,
            dt,
            dla,
            dlo,
            pt,
            pla,
            plo,
            first,
            s.subrange(i + 1, s.len() as int),
        );
        assert(Sample {
            timestamp: (pt + dt) as i64,
            lat_e5: (pla + dla) as i64,
            lon_e5: (plo + dlo) as i64,
        } == smp);
        assert(seq![smp] + s.subrange(i + 1, s.len() as int) =~= s.subrange(i, s.len() as int));
        assert(decode_from(stream, pt, pla, plo, first) == Some(s.subrange(i, s.len() as int)));
    }
}

/// Induction behind `lemma_stream_printable`, over the remaining samples.
proof fn lemma_encode_from_printable(s: Seq<Sample>, i: int, pt: int, pla: int, plo: int, first: bool)
    requires
        0 <= i <= s.len(),
    ensures
        forall|j: int|
            0 <= j < encode_from(s, i, pt, pla, plo, first).len() ==> 63 <= #[trigger] encode_from(
                s,
                i,
                pt,
                pla,
                plo,
                first,
            )[j] <= 126,
    decreases s.len() - i,
{
    if i < s.len() {
        let smp = s[i];
        let dt = smp.timestamp - pt;
        let e1 = if first {
            encode_u_spec(zigzag(dt))
        } else if dt >= 0 {
            encode_u_spec(dt as nat)
        } else {
            Seq::empty()
        };
        let e2 = encode_u_spec(zigzag(smp.lat_e5 - pla));
        let e3 = encode_u_spec(zigzag(smp.lon_e5 - plo));
        let rest = encode_from(
            s,
            i + 1,
            smp.timestamp as int,
            smp.lat_e5 as int,
            smp.lon_e5 as int,
            false,
        );
        if first {
            lemma_encode_u_bytes(zigzag(dt));
        } else if dt >= 0 {
            lemma_encode_u_bytes(dt as nat);
        }
        lemma_encode_u_bytes(zigzag(smp.lat_e5 - pla));
        lemma_encode_u_bytes(zigzag(smp.lon_e5 - plo));
        lemma_encode_from_printable(
            s,
            i + 1,
            smp.timestamp as int,
            smp.lat_e5 as int,
            smp.lon_e5 as int,
            false,
        );
        let stream = encode_from(s, i, pt, pla, plo, first);
        assert(stream == ((e1 + e2) + e3) + rest);
        assert forall|j: int| 0 <= j < stream.len() implies 63 <= #[trigger] stream[j] <= 126 by {
            if j < e1.len() {
                assert(stream[j] == e1[j]);
            } else if j < e1.len() + e2.len() {
                assert(stream[j] == e2[j - e1.len()]);
            } else if j < e1.len() + e2.len() + e3.len() {
                assert(stream[j] == e3[j - e1.len() - e2.len()]);
            } else {
                assert(stream[j] == rest[j - e1.len() - e2.len() - e3.len()]);
            }
        }
    }
}

/// Every byte of an encoded stream lies in the printable band 63..=126: the
/// bias plus a five-bit group, with or without the continuation flag.
pub proof fn lemma_stream_printable(s: Seq<Sample>)
    ensures
        forall|j: int|
            0 <= j < encode_spec(s).len() ==> 63 <= #[trigger] encode_spec(s)[j] <= 126,
{
    lemma_encode_from_printable(s, 0, YEAR2010 as int, 0, 0, true);
}

/// Round trip: for every sample sequence with non-decreasing timestamps and
/// in-band channel values, decoding the encoded stream yields exactly the
/// input samples; in particular the length is preserved.
pub proof fn lemma_round_trip(s: Seq<Sample>)
    requires
        samples_in_band(s),
        timestamps_sorted(s),
    ensures
        decode_spec(encode_spec(s)) == Some(s),
{
    lemma_round_trip_from(s, 0, YEAR2010 as int, 0, 0, true);
    assert(s.subrange(0, s.len() as int) =~= s);
}

/// Signed addition with an explicit range check, so the decoder can reject
/// a stream whose running reference would overflow instead of wrapping.
fn add_checked(a: i64, b: i64) -> (r: Option<i64>)
    ensures
        match r {
            Some(v) => v as int == a as int + b as int,
            None => !fits_i64(a as int + b as int),
        },
{
    if b >= 0 {
        if a <= i64::MAX - b {
            Some(a + b)
        } else {
            None
        }
    } else {
        if a >= i64::MIN - b {
            Some(a + b)
        } else {
            None
        }
    }
}

} // verus!
