//! Wire-format primitives: the 7-bit-continuation VarInt, big-endian 64-bit
//! words, and length-prefixed vectors of both.
//!
//! Every reader is specified against a spec-level decoder over byte
//! sequences, and every writer against a spec-level encoder; round-trip
//! lemmas connect the two.

use vstd::prelude::*;
use vstd::arithmetic::div_mod::*;

verus! {

/// Why a wire buffer failed to decode.
#[derive(Clone, Copy, Debug, PartialEq, Eq, Structural)]
pub enum DecodeError {
    /// The byte cursor was exhausted mid-field.
    TruncatedBuffer,
    /// A VarInt exceeded 5 bytes or signalled continuation past end-of-buffer.
    MalformedVarInt,
    /// The storage word count is inconsistent with the bit width and size.
    SizeMismatch,
}

/// Canonical VarInt encoding of a 32-bit value: 7 data bits per byte, low
/// group first, high bit of each byte as the continuation flag.
pub open spec fn varint_encode(v: u32) -> Seq<u8>
    decreases v,
{
    if v < 128 {
        seq![v as u8]
    } else {
        seq![((v % 128) + 128) as u8] + varint_encode(v / 128)
    }
}

/// Number of bytes in the canonical VarInt encoding of `v`.
pub open spec fn varint_len(v: u32) -> nat
    decreases v,
{
    if v < 128 {
        1
    } else {
        1 + varint_len(v / 128)
    }
}

/// Decode a VarInt whose remaining byte budget is `max`.
pub open spec fn varint_decode_rec(bytes: Seq<u8>, max: nat) -> Result<(u32, nat), DecodeError>
    decreases max,
{
    if bytes.len() == 0 {
        Err(DecodeError::MalformedVarInt)
    } else if bytes[0] < 128 {
        Ok((bytes[0] as u32, 1))
    } else if max <= 1 {
        Err(DecodeError::MalformedVarInt)
    } else {
        match varint_decode_rec(bytes.skip(1), (max - 1) as nat) {
            Ok((v, n)) => Ok(((((bytes[0] - 128) + 128 * v) % 0x1_0000_0000) as u32, n + 1)),
            Err(e) => Err(e),
        }
    }
}

/// Decode a VarInt from the front of `bytes`: at most 5 bytes, an empty
/// buffer is truncation, continuation past the end or a sixth continuation
/// byte is malformed.
pub open spec fn varint_decode(bytes: Seq<u8>) -> Result<(u32, nat), DecodeError> {
    if bytes.len() == 0 {
        Err(DecodeError::TruncatedBuffer)
    } else {
        varint_decode_rec(bytes, 5)
    }
}

/// The canonical encoding is 1 to 5 bytes long.
pub proof fn lemma_varint_encode_len(v: u32)
    ensures
        varint_encode(v).len() == varint_len(v),
        1 <= varint_len(v) <= 5,
    decreases v,
{
    if v < 128 {
    } else {
        lemma_varint_encode_len(v / 128);
        let v1 = v / 128;
        let v2 = v1 / 128;
        let v3 = v2 / 128;
        let v4 = v3 / 128;
        lemma_multiply_divide_lt(v as int, 0x2000000, 128);
        lemma_multiply_divide_lt(v1 as int, 0x40000, 128);
        lemma_multiply_divide_lt(v2 as int, 0x800, 128);
        lemma_multiply_divide_lt(v3 as int, 0x10, 128);
        assert(v4 < 128);
        assert(varint_len(v4) == 1);
        assert(varint_len(v3) <= 2);
        assert(varint_len(v2) <= 3);
        assert(varint_len(v1) <= 4);
    }
}

/// Decoding an encoding (with anything appended) yields the value back.
proof fn lemma_varint_round_trip_rec(v: u32, rest: Seq<u8>, max: nat)
    requires
        varint_len(v) <= max,
    ensures
        varint_decode_rec(varint_encode(v) + rest, max) == Ok::<(u32, nat), DecodeError>(
            (v, varint_len(v)),
        ),
    decreases v,
{
    lemma_varint_encode_len(v);
    let bytes = varint_encode(v) + rest;
    if v < 128 {
        assert(bytes[0] == v as u8);
    } else {
        lemma_mod_division_less_than_divisor(v as int, 128);
        assert(bytes[0] == ((v % 128) + 128) as u8);
        assert(bytes[0] >= 128);
        assert(bytes.skip(1) =~= varint_encode(v / 128) + rest);
        lemma_varint_encode_len(v / 128);
        lemma_varint_round_trip_rec(v / 128, rest, (max - 1) as nat);
        lemma_fundamental_div_mod(v as int, 128);
        assert((bytes[0] - 128) + 128 * (v / 128) == v);
        assert((v as int) % 0x1_0000_0000 == v) by {
            lemma_small_mod(v as nat, 0x1_0000_0000);
        }
    }
}

/// Public form of the VarInt round trip.
pub proof fn lemma_varint_round_trip(v: u32, rest: Seq<u8>)
    ensures
        varint_decode(varint_encode(v) + rest) == Ok::<(u32, nat), DecodeError>(
            (v, varint_len(v)),
        ),
        varint_encode(v).len() == varint_len(v),
        1 <= varint_len(v) <= 5,
{
    lemma_varint_encode_len(v);
    lemma_varint_round_trip_rec(v, rest, 5);
}

/// Combining a continuation byte with an already-decoded tail matches the
/// arithmetic form used by the spec decoder.
proof fn lemma_varint_combine(b: u8, v: u32)
    by (bit_vector)
    requires
        b >= 128,
    ensures
        (((b - 128) as u32) | (v << 7u32)) == ((((b - 128) + 128 * v) % 0x1_0000_0000) as u32),
{
}

fn read_varint_rec(data: &Vec<u8>, pos: usize, max: usize) -> (r: Result<
    (u32, usize),
    DecodeError,
>)
    requires
        pos <= data@.len(),
        1 <= max <= 5,
    ensures
        match r {
            Ok(p) => varint_decode_rec(data@.skip(pos as int), max as nat) == Ok::<
                (u32, nat),
                DecodeError,
            >((p.0, p.1 as nat)) && 1 <= p.1 <= max && pos + p.1 <= data@.len(),
            Err(e) => varint_decode_rec(data@.skip(pos as int), max as nat) == Err::<
                (u32, nat),
                DecodeError,
            >(e),
        },
    decreases max,
{
    if pos >= data.len() {
        return Err(DecodeError::MalformedVarInt);
    }
    let b = data[pos];
    if b < 128 {
        Ok((b as u32, 1))
    } else if max == 1 {
        Err(DecodeError::MalformedVarInt)
    } else {
        proof {
            assert(data@.skip(pos as int).skip(1) =~= data@.skip(pos as int + 1));
        }
        match read_varint_rec(data, pos + 1, max - 1) {
            Ok((v, n)) => {
                let val = ((b - 128) as u32) | (v << 7u32);
                proof {
                    lemma_varint_combine(b, v);
                }
                Ok((val, n + 1))
            },
            Err(e) => Err(e),
        }
    }
}

/// Read one VarInt starting at `pos`; on success the new position follows
/// the last byte consumed.
pub fn read_varint(data: &Vec<u8>, pos: usize) -> (r: Result<(u32, usize), DecodeError>)
    requires
        pos <= data@.len(),
    ensures
        match r {
            Ok(p) => pos < p.1 <= data@.len() && varint_decode(data@.skip(pos as int)) == Ok::<
                (u32, nat),
                DecodeError,
            >((p.0, (p.1 - pos) as nat)),
            Err(e) => varint_decode(data@.skip(pos as int)) == Err::<(u32, nat), DecodeError>(e),
        },
{
    if pos >= data.len() {
        return Err(DecodeError::TruncatedBuffer);
    }
    match read_varint_rec(data, pos, 5) {
        Ok((v, n)) => Ok((v, pos + n)),
        Err(e) => Err(e),
    }
}

/// Append the canonical VarInt encoding of `v`.
pub fn write_varint(buf: &mut Vec<u8>, v: u32)
    ensures
        final(buf)@ == old(buf)@ + varint_encode(v),
{
    let mut x = v;
    loop
        invariant
            buf@ + varint_encode(x) == old(buf)@ + varint_encode(v),
        decreases x,
    {
        if x < 128 {
            buf.push(x as u8);
            proof {
                assert(varint_encode(x) =~= seq![x as u8]);
                assert(buf@ =~= old(buf)@ + varint_encode(v));
            }
            return ;
        } else {
            let ghost x0 = x;
            let ghost pre = buf@;
            let byte = ((x & 0x7f) | 0x80) as u8;
            proof {
                assert((x & 0x7fu32) == x % 128 && (x >> 7u32) == x / 128 && ((x & 0x7fu32)
                    | 0x80u32) == (x % 128) + 128 && ((x & 0x7fu32) | 0x80u32) < 256) by (bit_vector)
                    requires
                        x >= 128u32,
                ;
            }
            buf.push(byte);
            x = x >> 7u32;
            proof {
                assert(byte == ((x0 % 128) + 128) as u8);
                assert(varint_encode(x0) == seq![byte] + varint_encode(x));
                assert(buf@ + varint_encode(x) =~= pre + varint_encode(x0));
            }
        }
    }
}

/// Big-endian byte sequence of one 64-bit word.
pub open spec fn be_bytes(v: u64) -> Seq<u8> {
    seq![
        (v >> 56u64) as u8,
        (v >> 48u64) as u8,
        (v >> 40u64) as u8,
        (v >> 32u64) as u8,
        (v >> 24u64) as u8,
        (v >> 16u64) as u8,
        (v >> 8u64) as u8,
        v as u8,
    ]
}

/// The word formed by eight big-endian bytes.
pub open spec fn be_combine(bytes: Seq<u8>) -> u64 {
    (((bytes[0] as u64) << 56u64) | ((bytes[1] as u64) << 48u64) | ((bytes[2] as u64) << 40u64) | (
    (bytes[3] as u64) << 32u64) | ((bytes[4] as u64) << 24u64) | ((bytes[5] as u64) << 16u64) | ((
    bytes[6] as u64) << 8u64) | (bytes[7] as u64))
}

/// Decode one big-endian word from the front of `bytes`.
pub open spec fn be_decode(bytes: Seq<u8>) -> Result<(u64, nat), DecodeError> {
    if bytes.len() < 8 {
        Err(DecodeError::TruncatedBuffer)
    } else {
        Ok((be_combine(bytes), 8))
    }
}

/// Splitting a word into big-endian bytes and recombining them is identity.
proof fn lemma_be_split_combine(v: u64)
    by (bit_vector)
    ensures
        ((((v >> 56u64) as u8) as u64) << 56u64) | ((((v >> 48u64) as u8) as u64) << 48u64) | ((((v
            >> 40u64) as u8) as u64) << 40u64) | ((((v >> 32u64) as u8) as u64) << 32u64) | ((((v
            >> 24u64) as u8) as u64) << 24u64) | ((((v >> 16u64) as u8) as u64) << 16u64) | ((((v
            >> 8u64) as u8) as u64) << 8u64) | ((v as u8) as u64) == v,
{
}

/// One big-endian word round-trips.
pub proof fn lemma_be_round_trip(v: u64, rest: Seq<u8>)
    ensures
        be_decode(be_bytes(v) + rest) == Ok::<(u64, nat), DecodeError>((v, 8)),
{
    let bytes = be_bytes(v) + rest;
    assert(bytes[0] == (v >> 56u64) as u8);
    assert(bytes[1] == (v >> 48u64) as u8);
    assert(bytes[2] == (v >> 40u64) as u8);
    assert(bytes[3] == (v >> 32u64) as u8);
    assert(bytes[4] == (v >> 24u64) as u8);
    assert(bytes[5] == (v >> 16u64) as u8);
    assert(bytes[6] == (v >> 8u64) as u8);
    assert(bytes[7] == v as u8);
    lemma_be_split_combine(v);
}

/// Append the big-endian bytes of `v`.
pub fn write_u64_be(buf: &mut Vec<u8>, v: u64)
    ensures
        final(buf)@ == old(buf)@ + be_bytes(v),
{
    buf.push((v >> 56u64) as u8);
    buf.push((v >> 48u64) as u8);
    buf.push((v >> 40u64) as u8);
    buf.push((v >> 32u64) as u8);
    buf.push((v >> 24u64) as u8);
    buf.push((v >> 16u64) as u8);
    buf.push((v >> 8u64) as u8);
    buf.push(v as u8);
    proof {
        assert(buf@ =~= old(buf)@ + be_bytes(v));
    }
}

/// Read one big-endian word starting at `pos`.
pub fn read_u64_be(data: &Vec<u8>, pos: usize) -> (r: Result<(u64, usize), DecodeError>)
    requires
        pos <= data@.len(),
    ensures
        match r {
            Ok(p) => p.1 == pos + 8 && p.1 <= data@.len() && be_decode(data@.skip(pos as int))
                == Ok::<(u64, nat), DecodeError>((p.0, 8)),
            Err(e) => be_decode(data@.skip(pos as int)) == Err::<(u64, nat), DecodeError>(e),
        },
{
    if data.len() - pos < 8 {
        return Err(DecodeError::TruncatedBuffer);
    }
    let v = (((data[pos] as u64) << 56u64) | ((data[pos + 1] as u64) << 48u64) | ((data[pos
        + 2] as u64) << 40u64) | ((data[pos + 3] as u64) << 32u64) | ((data[pos + 4] as u64)
        << 24u64) | ((data[pos + 5] as u64) << 16u64) | ((data[pos + 6] as u64) << 8u64) | (data[pos
        + 7] as u64));
    proof {
        let tail = data@.skip(pos as int);
        assert(tail[0] == data@[pos as int]);
        assert(tail[1] == data@[pos as int + 1]);
        assert(tail[2] == data@[pos as int + 2]);
        assert(tail[3] == data@[pos as int + 3]);
        assert(tail[4] == data@[pos as int + 4]);
        assert(tail[5] == data@[pos as int + 5]);
        assert(tail[6] == data@[pos as int + 6]);
        assert(tail[7] == data@[pos as int + 7]);
    }
    Ok((v, pos + 8))
}

/// Concatenated VarInt encodings of a value sequence.
pub open spec fn varints_bytes(vals: Seq<u32>) -> Seq<u8>
    decreases vals.len(),
{
    if vals.len() == 0 {
        Seq::empty()
    } else {
        varint_encode(vals[0]) + varints_bytes(vals.skip(1))
    }
}

/// A VarInt length prefix followed by that many VarInt values.
pub open spec fn varint_vec_encode(vals: Seq<u32>) -> Seq<u8> {
    varint_encode(vals.len() as u32) + varints_bytes(vals)
}

/// Decode exactly `n` VarInt values from the front of `bytes`.
pub open spec fn varint_items_decode(bytes: Seq<u8>, n: nat) -> Result<(Seq<u32>, nat), DecodeError>
    decreases n,
{
    if n == 0 {
        Ok((Seq::empty(), 0))
    } else {
        match varint_decode(bytes) {
            Err(e) => Err(e),
            Ok((v, k)) => match varint_items_decode(bytes.skip(k as int), (n - 1) as nat) {
                Err(e) => Err(e),
                Ok((vs, m)) => Ok((seq![v] + vs, k + m)),
            },
        }
    }
}

/// Decode a VarInt length prefix, then that many VarInt values.
pub open spec fn varint_vec_decode(bytes: Seq<u8>) -> Result<(Seq<u32>, nat), DecodeError> {
    match varint_decode(bytes) {
        Err(e) => Err(e),
        Ok((n, k)) => match varint_items_decode(bytes.skip(k as int), n as nat) {
            Err(e) => Err(e),
            Ok((vs, m)) => Ok((vs, k + m)),
        },
    }
}

/// Concatenated big-endian encodings of a word sequence.
pub open spec fn words_bytes(ws: Seq<u64>) -> Seq<u8>
    decreases ws.len(),
{
    if ws.len() == 0 {
        Seq::empty()
    } else {
        be_bytes(ws[0]) + words_bytes(ws.skip(1))
    }
}

/// A VarInt length prefix followed by that many big-endian words.
pub open spec fn words_encode(ws: Seq<u64>) -> Seq<u8> {
    varint_encode(ws.len() as u32) + words_bytes(ws)
}

/// Decode exactly `n` big-endian words from the front of `bytes`.
pub open spec fn words_items_decode(bytes: Seq<u8>, n: nat) -> Result<(Seq<u64>, nat), DecodeError>
    decreases n,
{
    if n == 0 {
        Ok((Seq::empty(), 0))
    } else {
        match be_decode(bytes) {
            Err(e) => Err(e),
            Ok((w, k)) => match words_items_decode(bytes.skip(8), (n - 1) as nat) {
                Err(e) => Err(e),
                Ok((ws, m)) => Ok((seq![w] + ws, 8 + m)),
            },
        }
    }
}

/// Decode a VarInt length prefix, then that many big-endian words.
pub open spec fn words_decode(bytes: Seq<u8>) -> Result<(Seq<u64>, nat), DecodeError> {
    match varint_decode(bytes) {
        Err(e) => Err(e),
        Ok((n, k)) => match words_items_decode(bytes.skip(k as int), n as nat) {
            Err(e) => Err(e),
            Ok((ws, m)) => Ok((ws, k + m)),
        },
    }
}

/// Append the VarInt encoding of every value in order.
pub fn write_varints(buf: &mut Vec<u8>, vals: &Vec<u32>)
    ensures
        final(buf)@ == old(buf)@ + varints_bytes(vals@),
{
    let ghost base = buf@;
    proof {
        assert(vals@.skip(0) =~= vals@);
    }
    let mut i: usize = 0;
    while i < vals.len()
        invariant
            i <= vals@.len(),
            buf@ + varints_bytes(vals@.skip(i as int)) == base + varints_bytes(vals@),
        decreases vals@.len() - i,
    {
        let ghost pre = buf@;
        write_varint(buf, vals[i]);
        proof {
            assert(vals@.skip(i as int)[0] == vals@[i as int]);
            assert(vals@.skip(i as int).skip(1) =~= vals@.skip(i as int + 1));
            assert(varints_bytes(vals@.skip(i as int)) == varint_encode(vals@[i as int])
                + varints_bytes(vals@.skip(i as int + 1)));
            assert(buf@ + varints_bytes(vals@.skip(i as int + 1)) =~= pre + varints_bytes(
                vals@.skip(i as int),
            ));
        }
        i = i + 1;
    }
    proof {
        assert(vals@.skip(vals@.len() as int) =~= Seq::<u32>::empty());
        assert(buf@ =~= buf@ + varints_bytes(vals@.skip(vals@.len() as int)));
    }
}

/// Append a VarInt length prefix and then every value.
pub fn write_varint_vec(buf: &mut Vec<u8>, vals: &Vec<u32>)
    requires
        vals@.len() <= u32::MAX,
    ensures
        final(buf)@ == old(buf)@ + varint_vec_encode(vals@),
{
    write_varint(buf, vals.len() as u32);
    write_varints(buf, vals);
    proof {
        assert(buf@ =~= old(buf)@ + varint_vec_encode(vals@));
    }
}

/// Append the big-endian bytes of every word in order.
pub fn write_words(buf: &mut Vec<u8>, ws: &Vec<u64>)
    ensures
        final(buf)@ == old(buf)@ + words_bytes(ws@),
{
    let ghost base = buf@;
    proof {
        assert(ws@.skip(0) =~= ws@);
    }
    let mut i: usize = 0;
    while i < ws.len()
        invariant
            i <= ws@.len(),
            buf@ + words_bytes(ws@.skip(i as int)) == base + words_bytes(ws@),
        decreases ws@.len() - i,
    {
        let ghost pre = buf@;
        write_u64_be(buf, ws[i]);
        proof {
            assert(ws@.skip(i as int)[0] == ws@[i as int]);
            assert(ws@.skip(i as int).skip(1) =~= ws@.skip(i as int + 1));
            assert(words_bytes(ws@.skip(i as int)) == be_bytes(ws@[i as int]) + words_bytes(
                ws@.skip(i as int + 1),
            ));
            assert(buf@ + words_bytes(ws@.skip(i as int + 1)) =~= pre + words_bytes(
                ws@.skip(i as int),
            ));
        }
        i = i + 1;
    }
    proof {
        assert(ws@.skip(ws@.len() as int) =~= Seq::<u64>::empty());
        assert(buf@ =~= buf@ + words_bytes(ws@.skip(ws@.len() as int)));
    }
}

/// Append a VarInt word count and then every word, big-endian.
pub fn write_word_vec(buf: &mut Vec<u8>, ws: &Vec<u64>)
    requires
        ws@.len() <= u32::MAX,
    ensures
        final(buf)@ == old(buf)@ + words_encode(ws@),
{
    write_varint(buf, ws.len() as u32);
    write_words(buf, ws);
    proof {
        assert(buf@ =~= old(buf)@ + words_encode(ws@));
    }
}

/// Read a VarInt length prefix and then that many VarInt values.
pub fn read_varint_vec(data: &Vec<u8>, pos: usize) -> (r: Result<(Vec<u32>, usize), DecodeError>)
    requires
        pos <= data@.len(),
    ensures
        match r {
            Ok(p) => pos < p.1 <= data@.len() && varint_vec_decode(data@.skip(pos as int)) == Ok::<
                (Seq<u32>, nat),
                DecodeError,
            >((p.0@, (p.1 - pos) as nat)),
            Err(e) => varint_vec_decode(data@.skip(pos as int)) == Err::<(Seq<u32>, nat), DecodeError>(
                e,
            ),
        },
{
    let (n, p0) = match read_varint(data, pos) {
        Ok(p) => p,
        Err(e) => {
            return Err(e);
        },
    };
    let ghost whole = data@.skip(pos as int);
    proof {
        assert(whole.skip((p0 - pos) as int) =~= data@.skip(p0 as int));
    }
    let mut acc: Vec<u32> = Vec::new();
    let mut i: u32 = 0;
    let mut cur: usize = p0;
    while i < n
        invariant
            i <= n,
            pos < p0 <= cur <= data@.len(),
            acc@.len() == i,
            varint_decode(whole) == Ok::<(u32, nat), DecodeError>((n, (p0 - pos) as nat)),
            whole == data@.skip(pos as int),
            varint_items_decode(data@.skip(p0 as int), n as nat) == (match varint_items_decode(
                data@.skip(cur as int),
                (n - i) as nat,
            ) {
                Ok(p) => Ok::<(Seq<u32>, nat), DecodeError>(
                    (acc@ + p.0, (cur - p0) as nat + p.1),
                ),
                Err(e) => Err::<(Seq<u32>, nat), DecodeError>(e),
            }),
        decreases n - i,
    {
        let ghost acc0 = acc@;
        let ghost cur0 = cur;
        match read_varint(data, cur) {
            Ok((v, np)) => {
                acc.push(v);
                cur = np;
                i = i + 1;
                proof {
                    assert(data@.skip(cur0 as int).skip((np - cur0) as int) =~= data@.skip(
                        np as int,
                    ));
                    let tail_res = varint_items_decode(data@.skip(np as int), (n - i) as nat);
                    match tail_res {
                        Ok((vs, m)) => {
                            assert(varint_items_decode(data@.skip(cur0 as int), (n - i + 1) as nat)
                                == Ok::<(Seq<u32>, nat), DecodeError>(
                                (seq![v] + vs, (np - cur0) as nat + m),
                            ));
                            assert(acc0 + (seq![v] + vs) =~= acc@ + vs);
                        },
                        Err(_) => {},
                    }
                }
            },
            Err(e) => {
                proof {
                    assert(varint_items_decode(data@.skip(cur as int), (n - i) as nat) == Err::<
                        (Seq<u32>, nat),
                        DecodeError,
                    >(e));
                    assert(whole.skip((p0 - pos) as int) =~= data@.skip(p0 as int));
                }
                return Err(e);
            },
        }
    }
    proof {
        assert(varint_items_decode(data@.skip(cur as int), 0) == Ok::<(Seq<u32>, nat), DecodeError>(
            (Seq::empty(), 0),
        ));
        assert(acc@ + Seq::<u32>::empty() =~= acc@);
        assert(whole.skip((p0 - pos) as int) =~= data@.skip(p0 as int));
    }
    Ok((acc, cur))
}

/// Read a VarInt word count and then that many big-endian words.
pub fn read_word_vec(data: &Vec<u8>, pos: usize) -> (r: Result<(Vec<u64>, usize), DecodeError>)
    requires
        pos <= data@.len(),
    ensures
        match r {
            Ok(p) => pos < p.1 <= data@.len() && words_decode(data@.skip(pos as int)) == Ok::<
                (Seq<u64>, nat),
                DecodeError,
            >((p.0@, (p.1 - pos) as nat)),
            Err(e) => words_decode(data@.skip(pos as int)) == Err::<(Seq<u64>, nat), DecodeError>(e),
        },
{
    let (n, p0) = match read_varint(data, pos) {
        Ok(p) => p,
        Err(e) => {
            return Err(e);
        },
    };
    let ghost whole = data@.skip(pos as int);
    proof {
        assert(whole.skip((p0 - pos) as int) =~= data@.skip(p0 as int));
    }
    let mut acc: Vec<u64> = Vec::new();
    let mut i: u32 = 0;
    let mut cur: usize = p0;
    while i < n
        invariant
            i <= n,
            pos < p0 <= cur <= data@.len(),
            acc@.len() == i,
            varint_decode(whole) == Ok::<(u32, nat), DecodeError>((n, (p0 - pos) as nat)),
            whole == data@.skip(pos as int),
            words_items_decode(data@.skip(p0 as int), n as nat) == (match words_items_decode(
                data@.skip(cur as int),
                (n - i) as nat,
            ) {
                Ok(p) => Ok::<(Seq<u64>, nat), DecodeError>(
                    (acc@ + p.0, (cur - p0) as nat + p.1),
                ),
                Err(e) => Err::<(Seq<u64>, nat), DecodeError>(e),
            }),
        decreases n - i,
    {
        let ghost acc0 = acc@;
        let ghost cur0 = cur;
        match read_u64_be(data, cur) {
            Ok((w, np)) => {
                acc.push(w);
                cur = np;
                i = i + 1;
                proof {
                    assert(data@.skip(cur0 as int).skip(8) =~= data@.skip(np as int));
                    let tail_res = words_items_decode(data@.skip(np as int), (n - i) as nat);
                    match tail_res {
                        Ok((ws2, m)) => {
                            assert(words_items_decode(data@.skip(cur0 as int), (n - i + 1) as nat)
                                == Ok::<(Seq<u64>, nat), DecodeError>(
                                (seq![w] + ws2, 8 + m),
                            ));
                            assert(acc0 + (seq![w] + ws2) =~= acc@ + ws2);
                        },
                        Err(_) => {},
                    }
                }
            },
            Err(e) => {
                proof {
                    assert(words_items_decode(data@.skip(cur as int), (n - i) as nat) == Err::<
                        (Seq<u64>, nat),
                        DecodeError,
                    >(e));
                    assert(whole.skip((p0 - pos) as int) =~= data@.skip(p0 as int));
                }
                return Err(e);
            },
        }
    }
    proof {
        assert(words_items_decode(data@.skip(cur as int), 0) == Ok::<(Seq<u64>, nat), DecodeError>(
            (Seq::empty(), 0),
        ));
        assert(acc@ + Seq::<u64>::empty() =~= acc@);
        assert(whole.skip((p0 - pos) as int) =~= data@.skip(p0 as int));
    }
    Ok((acc, cur))
}

/// Any sequence of VarInt values round-trips in front of any suffix.
pub proof fn lemma_varints_round_trip(vals: Seq<u32>, rest: Seq<u8>)
    ensures
        varint_items_decode(varints_bytes(vals) + rest, vals.len()) == Ok::<
            (Seq<u32>, nat),
            DecodeError,
        >((vals, varints_bytes(vals).len())),
    decreases vals.len(),
{
    if vals.len() == 0 {
        assert(varints_bytes(vals) + rest =~= rest);
        assert(Seq::<u32>::empty() =~= vals);
    } else {
        let v0 = vals[0];
        let tail = vals.skip(1);
        let bytes = varints_bytes(vals) + rest;
        lemma_varint_round_trip(v0, varints_bytes(tail) + rest);
        assert(bytes =~= varint_encode(v0) + (varints_bytes(tail) + rest));
        assert(bytes.skip(varint_len(v0) as int) =~= varints_bytes(tail) + rest);
        lemma_varints_round_trip(tail, rest);
        assert(seq![v0] + tail =~= vals);
    }
}

/// A VarInt-prefixed value vector round-trips in front of any suffix.
pub proof fn lemma_varint_vec_round_trip(vals: Seq<u32>, rest: Seq<u8>)
    requires
        vals.len() <= u32::MAX,
    ensures
        varint_vec_decode(varint_vec_encode(vals) + rest) == Ok::<(Seq<u32>, nat), DecodeError>(
            (vals, varint_vec_encode(vals).len()),
        ),
{
    let n = vals.len() as u32;
    let bytes = varint_vec_encode(vals) + rest;
    lemma_varint_round_trip(n, varints_bytes(vals) + rest);
    assert(bytes =~= varint_encode(n) + (varints_bytes(vals) + rest));
    assert(bytes.skip(varint_len(n) as int) =~= varints_bytes(vals) + rest);
    lemma_varints_round_trip(vals, rest);
}

/// Any word sequence round-trips in front of any suffix.
pub proof fn lemma_words_round_trip(ws: Seq<u64>, rest: Seq<u8>)
    ensures
        words_items_decode(words_bytes(ws) + rest, ws.len()) == Ok::<(Seq<u64>, nat), DecodeError>(
            (ws, words_bytes(ws).len()),
        ),
        words_bytes(ws).len() == 8 * ws.len(),
    decreases ws.len(),
{
    if ws.len() == 0 {
        assert(words_bytes(ws) + rest =~= rest);
        assert(Seq::<u64>::empty() =~= ws);
    } else {
        let w0 = ws[0];
        let tail = ws.skip(1);
        let bytes = words_bytes(ws) + rest;
        lemma_be_round_trip(w0, words_bytes(tail) + rest);
        assert(bytes =~= be_bytes(w0) + (words_bytes(tail) + rest));
        assert(bytes.skip(8) =~= words_bytes(tail) + rest);
        lemma_words_round_trip(tail, rest);
        assert(seq![w0] + tail =~= ws);
    }
}

/// A VarInt-prefixed word vector round-trips in front of any suffix.
pub proof fn lemma_word_vec_round_trip(ws: Seq<u64>, rest: Seq<u8>)
    requires
        ws.len() <= u32::MAX,
    ensures
        words_decode(words_encode(ws) + rest) == Ok::<(Seq<u64>, nat), DecodeError>(
            (ws, words_encode(ws).len()),
        ),
{
    let n = ws.len() as u32;
    let bytes = words_encode(ws) + rest;
    lemma_varint_round_trip(n, words_bytes(ws) + rest);
    assert(bytes =~= varint_encode(n) + (words_bytes(ws) + rest));
    assert(bytes.skip(varint_len(n) as int) =~= words_bytes(ws) + rest);
    lemma_words_round_trip(ws, rest);
}

} // verus!
