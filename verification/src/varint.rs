use vstd::prelude::*;
use crate::CodecError;

verus! {

// ---------------------------------------------------------------------------
// The variable-length integer alphabet.
//
// A value is cut into 5-bit groups, least significant group first.  Every
// group is biased by 63 so the byte is printable; every byte but the last
// additionally carries the continuation flag 32 (so continuation bytes fall
// in 95..=126 and final bytes in 63..=94).  Signed values go through the
// zig-zag map first, so small magnitudes of either sign stay short.
// ---------------------------------------------------------------------------

/// Largest value the unsigned codec accepts or produces: the non-negative
/// half of the signed 64-bit domain used by the delta arithmetic.
pub const VALUE_MAX: u64 = 0x7fff_ffff_ffff_ffff;

/// The unbiased value of a stream byte.  Subtraction wraps modulo 256, so
/// every byte, even one below the bias, has a defined unbiased value; bytes
/// below the bias unbias to 193..=255 and therefore never terminate a value.
pub open spec fn unbias(b: u8) -> u8 {
    if b >= 63 {
        (b - 63) as u8
    } else {
        (b + 193) as u8
    }
}

/// A byte terminates the value it belongs to when its unbiased form has the
/// continuation flag clear.
pub open spec fn is_final_byte(b: u8) -> bool {
    unbias(b) < 32
}

/// The 5-bit group a byte contributes.
pub open spec fn payload(b: u8) -> nat {
    (unbias(b) % 32) as nat
}

/// 32 raised to `e`: the weight of the `e`-th group of a value.
pub open spec fn pow32(e: nat) -> nat
    decreases e,
{
    if e == 0 {
        1
    } else {
        32 * pow32((e - 1) as nat)
    }
}

/// The byte run the unsigned codec emits for `n`: 5-bit groups, least
/// significant first, biased by 63, the continuation flag on all but the
/// last byte.
pub open spec fn encode_u_spec(n: nat) -> Seq<u8>
    decreases n,
{
    if n < 32 {
        seq![(n + 63) as u8]
    } else {
        seq![((n % 32) + 95) as u8] + encode_u_spec(n / 32)
    }
}

/// How many bytes the value at the head of `s` occupies: one past the first
/// final byte.  `None` when the stream runs out before a final byte.
pub open spec fn varint_len(s: Seq<u8>) -> Option<nat>
    decreases s.len(),
{
    if s.len() == 0 {
        None
    } else if is_final_byte(s[0]) {
        Some(1nat)
    } else {
        match varint_len(s.subrange(1, s.len() as int)) {
            None => None,
            Some(k) => Some((k + 1) as nat),
        }
    }
}

/// The value of the byte run `s`, read as 5-bit groups, least significant
/// group first.
pub open spec fn varint_value(s: Seq<u8>) -> nat
    decreases s.len(),
{
    if s.len() == 0 {
        0
    } else {
        payload(s[0]) + 32 * varint_value(s.subrange(1, s.len() as int))
    }
}

/// Reading one unsigned value at the head of `s`: the value and the number
/// of bytes consumed.  `None` when the stream ends before a final byte, or
/// the value does not fit the unsigned domain.
pub open spec fn parse_unsigned(s: Seq<u8>) -> Option<(nat, nat)> {
    match varint_len(s) {
        None => None,
        Some(k) => {
            let v = varint_value(s.subrange(0, k as int));
            if 1 <= k <= s.len() && v <= VALUE_MAX {
                Some((v, k))
            } else {
                None
            }
        },
    }
}

/// The zig-zag map from signed to unsigned values: 0, -1, 1, -2, 2, ...
/// become 0, 1, 2, 3, 4, ...
pub open spec fn zigzag(n: int) -> nat {
    if n >= 0 {
        (2 * n) as nat
    } else {
        (-2 * n - 1) as nat
    }
}

/// The inverse of the zig-zag map.
pub open spec fn unzigzag(v: nat) -> int {
    if v % 2 == 0 {
        (v / 2) as int
    } else {
        -((v / 2) as int) - 1
    }
}

/// Reading one signed value at the head of `s`.
pub open spec fn parse_signed(s: Seq<u8>) -> Option<(int, nat)> {
    match parse_unsigned(s) {
        None => None,
        Some((v, k)) => Some((unzigzag(v), k)),
    }
}

/// One decoded value together with the offset one past its last byte.
#[derive(Clone, Copy, PartialEq, Eq, Structural, Debug)]
pub struct DecodingResult {
    pub value: i64,
    pub offset: usize,
}

// ---------------------------------------------------------------------------
// Facts about the spec functions.
// ---------------------------------------------------------------------------

/// The zig-zag map undoes itself.
pub proof fn lemma_zigzag_unzigzag(n: int)
    ensures
        unzigzag(zigzag(n)) == n,
{
}

/// Where the first final byte sits decides the length of the head value:
/// a parsed length points at the first final byte, and a stream without a
/// final byte has no head value.
pub proof fn lemma_varint_len_char(s: Seq<u8>)
    ensures
        match varint_len(s) {
            Some(k) => 1 <= k <= s.len() && is_final_byte(s[k - 1]) && (forall|j: int|
                0 <= j < k - 1 ==> !is_final_byte(s[j])),
            None => forall|j: int| 0 <= j < s.len() ==> !is_final_byte(s[j]),
        },
    decreases s.len(),
{
    if s.len() == 0 {
    } else if is_final_byte(s[0]) {
    } else {
        let tail = s.subrange(1, s.len() as int);
        lemma_varint_len_char(tail);
        match varint_len(tail) {
            Some(k) => {
                assert(forall|j: int| 0 <= j < k - 1 ==> !is_final_byte(tail[j]));
                assert(forall|j: int| 1 <= j < k ==> !is_final_byte(s[j])) by {
                    assert(forall|j: int| 1 <= j < k ==> tail[j - 1] == s[j]);
                }
            },
            None => {
                assert(forall|j: int| 1 <= j < s.len() ==> !is_final_byte(s[j])) by {
                    assert(forall|j: int| 1 <= j < s.len() ==> tail[j - 1] == s[j]);
                }
            },
        }
    }
}

/// A stream whose first final byte sits at index `c` carries a head value of
/// exactly `c + 1` bytes.
pub proof fn lemma_varint_len_first_final(s: Seq<u8>, c: int)
    requires
        0 <= c < s.len(),
        is_final_byte(s[c]),
        forall|j: int| 0 <= j < c ==> !is_final_byte(s[j]),
    ensures
        varint_len(s) == Some((c + 1) as nat),
{
    lemma_varint_len_char(s);
    match varint_len(s) {
        Some(k) => {
            if k - 1 < c {
                assert(!is_final_byte(s[k - 1]));
            } else if k - 1 > c {
                assert(!is_final_byte(s[c]));
            }
        },
        None => {
            assert(!is_final_byte(s[c]));
        },
    }
}

/// Extending the read prefix by one byte adds that byte's group at the next
/// weight.
pub proof fn lemma_varint_value_step(s: Seq<u8>, c: int)
    requires
        0 <= c < s.len(),
    ensures
        varint_value(s.subrange(0, c + 1)) == varint_value(s.subrange(0, c)) + payload(s[c])
            * pow32(c as nat),
    decreases c,
{
    if c == 0 {
        assert(varint_value(Seq::<u8>::empty()) == 0);
        assert(s.subrange(0, 1).subrange(1, 1) =~= Seq::<u8>::empty());
        assert(s.subrange(0, 0) =~= Seq::<u8>::empty());
        assert(varint_value(s.subrange(0, 1)) == payload(s[0]) + 32 * varint_value(
            s.subrange(0, 1).subrange(1, 1),
        ));
        assert(pow32(c as nat) == 1);
        assert(payload(s[c]) * pow32(c as nat) == payload(s[0])) by (nonlinear_arith)
            requires
                payload(s[c]) == payload(s[0]),
                pow32(c as nat) == 1,
        ;
        assert(varint_value(s.subrange(0, c)) == 0);
        assert(varint_value(s.subrange(0, c + 1)) == payload(s[0]));
    } else {
        let tail = s.subrange(1, s.len() as int);
        lemma_varint_value_step(tail, c - 1);
        assert(tail.subrange(0, c) =~= s.subrange(0, c + 1).subrange(1, c + 1));
        assert(tail.subrange(0, c - 1) =~= s.subrange(0, c).subrange(1, c));
        assert(varint_value(s.subrange(0, c + 1)) == payload(s[0]) + 32 * varint_value(
            tail.subrange(0, c),
        ));
        assert(varint_value(s.subrange(0, c)) == payload(s[0]) + 32 * varint_value(
            tail.subrange(0, c - 1),
        ));
        assert(payload(tail[c - 1]) == payload(s[c]));
        assert(32 * (varint_value(tail.subrange(0, c - 1)) + payload(tail[c - 1]) * pow32(
            (c - 1) as nat,
        )) == 32 * varint_value(tail.subrange(0, c - 1)) + 32 * (payload(tail[c - 1]) * pow32(
            (c - 1) as nat,
        ))) by (nonlinear_arith);
        assert(32 * (payload(s[c]) * pow32((c - 1) as nat)) == payload(s[c]) * (32 * pow32(
            (c - 1) as nat,
        ))) by (nonlinear_arith);
        assert(pow32(c as nat) == 32 * pow32((c - 1) as nat));
        assert(varint_value(s.subrange(0, c + 1)) == varint_value(s.subrange(0, c)) + payload(
            s[c],
        ) * pow32(c as nat));
    }
}

/// A longer read never shrinks the value: the full run is worth at least the
/// prefix plus the next group at its weight.
pub proof fn lemma_varint_value_lower(s: Seq<u8>, c: int)
    requires
        0 <= c < s.len(),
    ensures
        varint_value(s) >= varint_value(s.subrange(0, c)) + payload(s[c]) * pow32(c as nat),
    decreases c,
{
    if c == 0 {
        assert(varint_value(Seq::<u8>::empty()) == 0);
        assert(s.subrange(0, 0) =~= Seq::<u8>::empty());
        assert(payload(s[0]) * pow32(0) == payload(s[0])) by (nonlinear_arith);
        assert(32 * varint_value(s.subrange(1, s.len() as int)) >= 0);
    } else {
        let tail = s.subrange(1, s.len() as int);
        lemma_varint_value_lower(tail, c - 1);
        assert(tail.subrange(0, c - 1) =~= s.subrange(0, c).subrange(1, c));
        assert(varint_value(s.subrange(0, c)) == payload(s[0]) + 32 * varint_value(
            tail.subrange(0, c - 1),
        ));
        assert(payload(tail[c - 1]) == payload(s[c]));
        assert(varint_value(tail) >= varint_value(tail.subrange(0, c - 1)) + payload(s[c]) * pow32(
            (c - 1) as nat,
        ));
        assert(32 * varint_value(tail) >= 32 * varint_value(tail.subrange(0, c - 1)) + 32 * (
        payload(s[c]) * pow32((c - 1) as nat)));
        assert(32 * (payload(s[c]) * pow32((c - 1) as nat)) == payload(s[c]) * (32 * pow32(
            (c - 1) as nat,
        ))) by (nonlinear_arith);
        assert(pow32(c as nat) == 32 * pow32((c - 1) as nat));
    }
}

/// Every group weight is positive.
pub proof fn lemma_pow32_pos(e: nat)
    ensures
        pow32(e) >= 1,
    decreases e,
{
    if e > 0 {
        lemma_pow32_pos((e - 1) as nat);
    }
}

/// pow32 grows with its exponent.
pub proof fn lemma_pow32_mono(a: nat, b: nat)
    requires
        a <= b,
    ensures
        pow32(a) <= pow32(b),
        pow32(a) >= 1,
    decreases b - a,
{
    lemma_pow32_pos(a);
    if a < b {
        lemma_pow32_mono(a, (b - 1) as nat);
        assert(pow32(b) == 32 * pow32((b - 1) as nat));
    }
}

/// Thirteen groups already weigh more than the unsigned domain holds.
pub proof fn lemma_pow32_13()
    ensures
        pow32(13) == 0x2_0000_0000_0000_0000,
        pow32(12) == 0x1000_0000_0000_0000,
        pow32(11) == 0x80_0000_0000_0000,
{
    reveal_with_fuel(pow32, 14);
}

// ---------------------------------------------------------------------------
// The executable codec.
// ---------------------------------------------------------------------------

/// Encodes a non-negative value as a varint byte run.
pub fn encode_unsigned_number(num: i64) -> (r: Vec<u8>)
    requires
        0 <= num,
    ensures
        r@ == encode_u_spec(num as nat),
{
    let mut encoded: Vec<u8> = Vec::new();
    let mut tmp: u64 = num as u64;
    while tmp >= 32
        invariant
            encoded@ + encode_u_spec(tmp as nat) == encode_u_spec(num as nat),
        decreases tmp,
    {
        let byte: u8 = ((tmp % 32) as u8) + 95;
        let ghost pre = encoded@;
        let ghost pre_tmp = tmp;
        encoded.push(byte);
        tmp = tmp / 32;
        proof {
            assert(seq![byte] + encode_u_spec((pre_tmp / 32) as nat) == encode_u_spec(
                pre_tmp as nat,
            ));
            assert(encoded@ + encode_u_spec(tmp as nat) =~= pre + (seq![byte] + encode_u_spec(
                tmp as nat,
            )));
        }
    }
    let byte: u8 = (tmp as u8) + 63;
    encoded.push(byte);
    proof {
        assert(seq![byte] =~= encode_u_spec(tmp as nat));
    }
    encoded
}

/// Encodes a signed value: zig-zag first, then the unsigned codec.
pub fn encode_signed_number(num: i64) -> (r: Vec<u8>)
    requires
        -0x4000_0000_0000_0000 <= num < 0x4000_0000_0000_0000,
    ensures
        r@ == encode_u_spec(zigzag(num as int)),
{
    if num >= 0 {
        encode_unsigned_number(2 * num)
    } else {
        let m: i64 = -(num + 1);
        encode_unsigned_number(2 * m + 1)
    }
}

/// Decodes one unsigned value starting at `offset`, returning the value and
/// the offset one past its last byte.  Fails when the stream ends before a
/// final byte, or the value does not fit the unsigned domain.
pub fn decode_unsigned_value_from_string(encoded: &Vec<u8>, offset: usize) -> (r: Result<
    DecodingResult,
    CodecError,
>)
    requires
        offset <= encoded@.len(),
    ensures
        match r {
            Ok(d) => {
                &&& parse_unsigned(encoded@.subrange(offset as int, encoded@.len() as int))
                    == Some(((d.value as nat), ((d.offset - offset) as nat)))
                &&& offset < d.offset <= encoded@.len()
                &&& 0 <= d.value
            },
            Err(e) => {
                &&& e == CodecError::MalformedStream
                &&& parse_unsigned(encoded@.subrange(offset as int, encoded@.len() as int))
                    is None
            },
        },
{
    let len: usize = encoded.len();
    let ghost suf: Seq<u8> = encoded@.subrange(offset as int, len as int);
    let mut value: u64 = 0;
    let mut mult: u64 = 1;
    let mut consumed: usize = 0;
    loop
        invariant
            offset <= len,
            len == encoded@.len(),
            suf == encoded@.subrange(offset as int, len as int),
            consumed <= len - offset,
            forall|j: int| 0 <= j < consumed ==> !is_final_byte(suf[j]),
            value == varint_value(suf.subrange(0, consumed as int)),
            value <= VALUE_MAX,
            consumed <= 12 ==> mult == pow32(consumed as nat),
            consumed > 12 ==> mult == pow32(12),
            mult <= 0x1000_0000_0000_0000,
        decreases len - offset - consumed,
    {
        if consumed >= len - offset {
            proof {
                lemma_varint_len_char(suf);
            }
            return Err(CodecError::MalformedStream);
        }
        let b: u8 = encoded[offset + consumed];
        proof {
            assert(suf[consumed as int] == b);
        }
        let u: u8 = if b >= 63 {
            b - 63
        } else {
            b + 193
        };
        let p: u64 = (u % 32) as u64;
        proof {
            assert(u == unbias(b));
            assert(p as nat == payload(b));
        }
        if consumed >= 13 {
            if p > 0 {
                proof {
                    lemma_pow32_mono(13, consumed as nat);
                    lemma_pow32_13();
                    let pw = pow32(consumed as nat);
                    assert(payload(b) * pw >= pw) by (nonlinear_arith)
                        requires
                            payload(b) >= 1,
                            pw >= 0,
                    ;
                    lemma_overlong_is_overflow(suf, consumed as int, value, mult);
                }
                return Err(CodecError::MalformedStream);
            }
            proof {
                lemma_varint_value_step(suf, consumed as int);
                assert(payload(b) * pow32(consumed as nat) == 0) by (nonlinear_arith)
                    requires
                        payload(b) == 0,
                ;
            }
        } else {
            proof {
                assert((p as nat) * (mult as nat) <= 31 * 0x1000_0000_0000_0000)
                    by (nonlinear_arith)
                    requires
                        p <= 31,
                        mult <= 0x1000_0000_0000_0000,
                ;
            }
            let addend: u128 = (p as u128) * (mult as u128);
            if (value as u128) + addend > (VALUE_MAX as u128) {
                proof {
                    assert(payload(b) * pow32(consumed as nat) == (p as nat) * (mult as nat));
                    lemma_overlong_is_overflow(suf, consumed as int, value, mult);
                }
                return Err(CodecError::MalformedStream);
            }
            value = value + (addend as u64);
            proof {
                assert(payload(b) * pow32(consumed as nat) == (p as nat) * (mult as nat));
                lemma_varint_value_step(suf, consumed as int);
            }
            if consumed < 12 {
                proof {
                    lemma_pow32_mono(consumed as nat, 11);
                    lemma_pow32_13();
                }
                mult = mult * 32;
            }
        }
        consumed = consumed + 1;
        if u < 32 {
            proof {
                lemma_varint_len_first_final(suf, consumed - 1);
            }
            return Ok(DecodingResult { value: value as i64, offset: offset + consumed });
        }
    }
}

/// Why an oversized group aborts the read: whatever terminates the run
/// later, its value already exceeds the unsigned domain.
proof fn lemma_overlong_is_overflow(suf: Seq<u8>, c: int, value: u64, mult: u64)
    requires
        0 <= c < suf.len(),
        forall|j: int| 0 <= j < c ==> !is_final_byte(suf[j]),
        value == varint_value(suf.subrange(0, c)),
        c <= 12 ==> mult == pow32(c as nat),
        c > 12 ==> mult == pow32(12),
        value + payload(suf[c]) * pow32(c as nat) > VALUE_MAX,
    ensures
        parse_unsigned(suf) is None,
{
    lemma_varint_len_char(suf);
    match varint_len(suf) {
        None => {},
        Some(k) => {
            // the final byte sits at k - 1; every byte before c continues,
            // so k - 1 >= c and the run includes group c.
            if k - 1 < c {
                assert(!is_final_byte(suf[k - 1]));
            }
            let run = suf.subrange(0, k as int);
            lemma_varint_value_lower(run, c);
            assert(run.subrange(0, c) =~= suf.subrange(0, c));
            assert(run[c] == suf[c]);
            assert(varint_value(run) > VALUE_MAX);
        },
    }
}

/// Decodes one signed value starting at `offset`: the unsigned codec
/// followed by the inverse zig-zag map.
pub fn decode_signed_value_from_string(encoded: &Vec<u8>, offset: usize) -> (r: Result<
    DecodingResult,
    CodecError,
>)
    requires
        offset <= encoded@.len(),
    ensures
        match r {
            Ok(d) => {
                &&& parse_signed(encoded@.subrange(offset as int, encoded@.len() as int))
                    == Some(((d.value as int), ((d.offset - offset) as nat)))
                &&& offset < d.offset <= encoded@.len()
                &&& -0x4000_0000_0000_0000 <= d.value < 0x4000_0000_0000_0000
            },
            Err(e) => {
                &&& e == CodecError::MalformedStream
                &&& parse_signed(encoded@.subrange(offset as int, encoded@.len() as int))
                    is None
            },
        },
{
    match decode_unsigned_value_from_string(encoded, offset) {
        Err(e) => Err(e),
        Ok(d) => {
            let v: i64 = d.value;
            if v % 2 == 1 {
                Ok(DecodingResult { value: -(v / 2) - 1, offset: d.offset })
            } else {
                Ok(DecodingResult { value: v / 2, offset: d.offset })
            }
        },
    }
}

// ---------------------------------------------------------------------------
// Round-trip and minimality laws of the varint layer.
// ---------------------------------------------------------------------------

/// Every byte the unsigned codec emits: all but the last continue, the last
/// is final, and all sit in the printable band 63..=126.
pub proof fn lemma_encode_u_bytes(n: nat)
    ensures
        encode_u_spec(n).len() >= 1,
        is_final_byte(encode_u_spec(n)[encode_u_spec(n).len() - 1]),
        forall|j: int|
            0 <= j < encode_u_spec(n).len() - 1 ==> !is_final_byte(#[trigger] encode_u_spec(n)[j]),
        forall|j: int| 0 <= j < encode_u_spec(n).len() ==> 63 <= #[trigger] encode_u_spec(n)[j]
            <= 126,
    decreases n,
{
    if n < 32 {
    } else {
        lemma_encode_u_bytes(n / 32);
        let e = encode_u_spec(n);
        let tail = encode_u_spec(n / 32);
        assert(forall|j: int| 1 <= j < e.len() ==> e[j] == tail[j - 1]);
    }
}

/// Decoding undoes encoding at the value level.
pub proof fn lemma_encode_u_value(n: nat)
    ensures
        varint_value(encode_u_spec(n)) == n,
    decreases n,
{
    let e = encode_u_spec(n);
    if n < 32 {
        assert(varint_value(Seq::<u8>::empty()) == 0);
        assert(e.subrange(1, e.len() as int) =~= Seq::<u8>::empty());
        assert(payload(e[0]) == n);
    } else {
        lemma_encode_u_value(n / 32);
        assert(e.subrange(1, e.len() as int) =~= encode_u_spec(n / 32));
        assert(payload(e[0]) == n % 32);
    }
}

/// An encoded value at the head of any stream parses back to that value and
/// consumes exactly its own bytes.
pub proof fn lemma_parse_unsigned_concat(n: nat, rest: Seq<u8>)
    requires
        n <= VALUE_MAX,
    ensures
        parse_unsigned(encode_u_spec(n) + rest) == Some((n, encode_u_spec(n).len())),
{
    let e = encode_u_spec(n);
    let s = e + rest;
    lemma_encode_u_bytes(n);
    assert(forall|j: int| 0 <= j < e.len() ==> s[j] == e[j]);
    lemma_varint_len_first_final(s, e.len() - 1);
    assert(s.subrange(0, e.len() as int) =~= e);
    lemma_encode_u_value(n);
}

/// Signed analog of `lemma_parse_unsigned_concat`, through the zig-zag map.
pub proof fn lemma_parse_signed_concat(m: int, rest: Seq<u8>)
    requires
        -0x4000_0000_0000_0000 <= m < 0x4000_0000_0000_0000,
    ensures
        parse_signed(encode_u_spec(zigzag(m)) + rest) == Some((m, encode_u_spec(zigzag(m)).len())),
{
    lemma_parse_unsigned_concat(zigzag(m), rest);
    lemma_zigzag_unzigzag(m);
}

/// Varint idempotence, unsigned: for every value in the supported range,
/// decoding its encoding yields the value back and consumes the whole run.
pub proof fn lemma_unsigned_round_trip(n: nat)
    requires
        n <= VALUE_MAX,
    ensures
        parse_unsigned(encode_u_spec(n)) == Some((n, encode_u_spec(n).len())),
{
    lemma_parse_unsigned_concat(n, Seq::empty());
    assert(encode_u_spec(n) + Seq::<u8>::empty() =~= encode_u_spec(n));
}

/// Varint idempotence, signed.
pub proof fn lemma_signed_round_trip(m: int)
    requires
        -0x4000_0000_0000_0000 <= m < 0x4000_0000_0000_0000,
    ensures
        parse_signed(encode_u_spec(zigzag(m))) == Some((m, encode_u_spec(zigzag(m)).len())),
{
    lemma_parse_signed_concat(m, Seq::empty());
    assert(encode_u_spec(zigzag(m)) + Seq::<u8>::empty() =~= encode_u_spec(zigzag(m)));
}

// ---------------------------------------------------------------------------
// Minimality: the encoding spends exactly one byte per five bits.
// ---------------------------------------------------------------------------

/// Number of bits needed to write `n` in binary (zero for zero).
pub open spec fn bit_length(n: nat) -> nat
    decreases n,
{
    if n == 0 {
        0
    } else {
        (1 + bit_length(n / 2)) as nat
    }
}

/// Two raised to `e`.
pub open spec fn pow2(e: nat) -> nat
    decreases e,
{
    if e == 0 {
        1
    } else {
        2 * pow2((e - 1) as nat)
    }
}

/// `bit_length` and powers of two order each other.
pub proof fn lemma_bit_length_le(n: nat, k: nat)
    ensures
        (bit_length(n) <= k) == (n < pow2(k)),
        pow2(k) >= 1,
    decreases k,
{
    if k == 0 {
        if n > 0 {
            assert(bit_length(n) >= 1);
        }
    } else {
        lemma_bit_length_le(n / 2, (k - 1) as nat);
        assert(pow2(k) == 2 * pow2((k - 1) as nat));
    }
}

/// A five-bit shift of the value adds five to its bit length.
pub proof fn lemma_bit_length_div32(n: nat)
    requires
        n >= 32,
    ensures
        bit_length(n) == 5 + bit_length(n / 32),
{
    assert(bit_length(n) == 1 + bit_length(n / 2));
    assert(n / 2 >= 16);
    assert(bit_length(n / 2) == 1 + bit_length(n / 2 / 2));
    assert(n / 2 / 2 == n / 4);
    assert(n / 4 >= 8);
    assert(bit_length(n / 4) == 1 + bit_length(n / 4 / 2));
    assert(n / 4 / 2 == n / 8);
    assert(n / 8 >= 4);
    assert(bit_length(n / 8) == 1 + bit_length(n / 8 / 2));
    assert(n / 8 / 2 == n / 16);
    assert(n / 16 >= 2);
    assert(bit_length(n / 16) == 1 + bit_length(n / 16 / 2));
    assert(n / 16 / 2 == n / 32);
}

/// Minimality: the unsigned encoding of `n` takes exactly
/// `ceil(bit_length(n) / 5)` bytes, never fewer than one.
pub proof fn lemma_encode_unsigned_minimal(n: nat)
    ensures
        encode_u_spec(n).len() >= 1,
        n == 0 ==> encode_u_spec(n).len() == 1,
        n > 0 ==> encode_u_spec(n).len() == (bit_length(n) + 4) / 5,
    decreases n,
{
    if n < 32 {
        if n > 0 {
            assert(bit_length(n) >= 1);
            lemma_bit_length_le(n, 5);
            assert(pow2(5) == 32) by {
                reveal_with_fuel(pow2, 6);
            }
        }
    } else {
        lemma_encode_unsigned_minimal(n / 32);
        lemma_bit_length_div32(n);
        assert(n / 32 >= 1);
        assert(bit_length(n / 32) >= 1);
    }
}

} // verus!

