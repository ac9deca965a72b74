//! Prefix-length varint primitive: resumable decoding of unsigned 64-bit
//! integers.
//!
//! Wire layout: the number of trailing zero bits in the first byte gives
//! the number of bytes that follow it. A value needing `l` bytes
//! (`1 <= l <= 8`) is stored as the `l` little-endian bytes of
//! `value * 2^l + 2^(l-1)`; a value of 57 or more significant bits is
//! stored as a zero byte followed by the 8 little-endian bytes of the
//! value. Encodings longer than the value requires are rejected, so every
//! value has exactly one accepted byte representation.

use crate::error::{Element, Error};
use vstd::arithmetic::div_mod::{
    lemma_fundamental_div_mod, lemma_fundamental_div_mod_converse,
};
use vstd::arithmetic::mul::lemma_mul_inequality;
use vstd::prelude::*;
use vstd::slice::{slice_index_get, slice_subrange};

verus! {

/// Total length in bytes of the encoding that starts with `first`:
/// one more than the number of trailing zero bits, with a wholly zero
/// first byte introducing an 8-byte payload.
pub open spec fn needed_len(first: u8) -> int {
    if first % 2 == 1 {
        1
    } else if first % 4 == 2 {
        2
    } else if first % 8 == 4 {
        3
    } else if first % 16 == 8 {
        4
    } else if first % 32 == 16 {
        5
    } else if first % 64 == 32 {
        6
    } else if first % 128 == 64 {
        7
    } else if first == 128 {
        8
    } else {
        9
    }
}

/// The length in bytes of the shortest encoding of `value`: the least
/// `l <= 8` with `value < 2^(7*l)`, or 9 when there is none.
pub open spec fn min_len(value: u64) -> int {
    if value < 0x80 {
        1
    } else if value < 0x4000 {
        2
    } else if value < 0x20_0000 {
        3
    } else if value < 0x1000_0000 {
        4
    } else if value < 0x8_0000_0000 {
        5
    } else if value < 0x400_0000_0000 {
        6
    } else if value < 0x2_0000_0000_0000 {
        7
    } else if value < 0x100_0000_0000_0000 {
        8
    } else {
        9
    }
}

/// `2^len`: the factor the value is shifted by inside an encoding of
/// `len` bytes, `1 <= len <= 8`.
pub open spec fn scale(len: int) -> int {
    if len <= 1 {
        2
    } else if len == 2 {
        4
    } else if len == 3 {
        8
    } else if len == 4 {
        16
    } else if len == 5 {
        32
    } else if len == 6 {
        64
    } else if len == 7 {
        128
    } else {
        256
    }
}

/// `2^(7*(len-1))`: the least value whose shortest encoding has `len`
/// bytes, `2 <= len <= 9`.
pub open spec fn low_bound(len: int) -> int {
    if len <= 2 {
        0x80
    } else if len == 3 {
        0x4000
    } else if len == 4 {
        0x20_0000
    } else if len == 5 {
        0x1000_0000
    } else if len == 6 {
        0x8_0000_0000
    } else if len == 7 {
        0x400_0000_0000
    } else if len == 8 {
        0x2_0000_0000_0000
    } else {
        0x100_0000_0000_0000
    }
}

/// `256^len`: the number of values that `len` bytes can hold.
pub open spec fn byte_bound(len: int) -> int
    decreases len,
{
    if len <= 0 {
        1
    } else {
        256 * byte_bound(len - 1)
    }
}

/// The integer held by a little-endian byte sequence.
pub open spec fn le_int(s: Seq<u8>) -> int
    decreases s.len(),
{
    if s.len() == 0 {
        0
    } else {
        s[0] + 256 * le_int(s.skip(1))
    }
}

/// The `len` little-endian bytes of `n`.
pub open spec fn le_bytes(n: int, len: int) -> Seq<u8>
    decreases len,
{
    if len <= 0 {
        Seq::empty()
    } else {
        seq![(n % 256) as u8] + le_bytes(n / 256, len - 1)
    }
}

/// The canonical encoding of `value`.
pub open spec fn encoding(value: u64) -> Seq<u8> {
    let l: int = min_len(value);
    if l <= 8 {
        le_bytes(value * scale(l) + scale(l) / 2, l)
    } else {
        seq![0u8] + le_bytes(value as int, 8)
    }
}

/// The value held by a complete encoding `enc`
/// (`enc.len() == needed_len(enc[0])`), before the canonicality check.
pub open spec fn value_of(enc: Seq<u8>) -> u64 {
    let l: int = enc.len() as int;
    if l == 9 {
        le_int(enc.skip(1)) as u64
    } else {
        (le_int(enc) / scale(l)) as u64
    }
}

/// A complete encoding is canonical when it has exactly the length its
/// value requires: longer (zero-padded) encodings are rejected.
pub open spec fn is_canonical(enc: Seq<u8>) -> bool {
    min_len(value_of(enc)) == enc.len()
}

pub proof fn lemma_le_bytes_len(n: int, len: int)
    requires
        0 <= len,
    ensures
        le_bytes(n, len).len() == len,
    decreases len,
{
    if len > 0 {
        lemma_le_bytes_len(n / 256, len - 1);
    }
}

pub proof fn lemma_le_int_bound(s: Seq<u8>)
    ensures
        0 <= le_int(s) < byte_bound(s.len() as int),
    decreases s.len(),
{
    if s.len() > 0 {
        lemma_le_int_bound(s.skip(1));
        let rest: int = le_int(s.skip(1));
        let bb: int = byte_bound(s.len() - 1);
        assert(rest <= bb - 1);
        assert(256 * rest <= 256 * (bb - 1)) by {
            lemma_mul_inequality(rest, bb - 1, 256);
            assert(rest * 256 <= (bb - 1) * 256);
            assert(rest * 256 == 256 * rest) by (nonlinear_arith);
            assert((bb - 1) * 256 == 256 * (bb - 1)) by (nonlinear_arith);
        }
    }
}

pub proof fn lemma_le_bytes_int(n: int, len: int)
    requires
        0 <= len,
        0 <= n < byte_bound(len),
    ensures
        le_int(le_bytes(n, len)) == n,
    decreases len,
{
    if len > 0 {
        let q: int = n / 256;
        let r: int = n % 256;
        lemma_fundamental_div_mod(n, 256);
        assert(n == 256 * q + r);
        assert(q < byte_bound(len - 1)) by {
            if q >= byte_bound(len - 1) {
                lemma_mul_inequality(byte_bound(len - 1), q, 256);
                assert(byte_bound(len - 1) * 256 <= q * 256);
                assert(q * 256 == 256 * q) by (nonlinear_arith);
                assert(byte_bound(len - 1) * 256 == 256 * byte_bound(len - 1))
                    by (nonlinear_arith);
            }
        }
        lemma_le_bytes_int(q, len - 1);
        let s: Seq<u8> = le_bytes(n, len);
        assert(s == seq![r as u8] + le_bytes(q, len - 1));
        assert(s.skip(1) =~= le_bytes(q, len - 1));
        assert(s[0] == r as u8);
    }
}

/// The error reported for a malformed or non-canonical varint inside a
/// field header.
pub open spec fn decode_failure() -> Error {
    Error::Decode { element: Element::Tag, wire_type: None }
}

/// A byte stream holds a complete varint when its first byte's announced
/// length has arrived.
pub open spec fn stream_complete(t: Seq<u8>) -> bool {
    t.len() > 0 && needed_len(t[0]) <= t.len()
}

/// The encoding at the front of a complete stream.
pub open spec fn stream_encoding(t: Seq<u8>) -> Seq<u8> {
    t.take(needed_len(t[0]))
}

/// The outcome of decoding one complete encoding: its value, or a
/// failure when the encoding is longer than its value requires.
pub open spec fn complete_result(enc: Seq<u8>) -> Result<u64, Error> {
    if is_canonical(enc) {
        Ok(value_of(enc))
    } else {
        Err(decode_failure())
    }
}

pub proof fn lemma_byte_bound_values()
    ensures
        byte_bound(0) == 1,
        byte_bound(1) == 0x100,
        byte_bound(2) == 0x1_0000,
        byte_bound(3) == 0x100_0000,
        byte_bound(4) == 0x1_0000_0000,
        byte_bound(5) == 0x100_0000_0000,
        byte_bound(6) == 0x1_0000_0000_0000,
        byte_bound(7) == 0x100_0000_0000_0000,
        byte_bound(8) == 0x1_0000_0000_0000_0000,
{
    reveal_with_fuel(byte_bound, 10);
}

/// Every value has a well-formed canonical encoding: its length is the
/// shortest the value admits, the first byte announces exactly that
/// length, and decoding recovers the value.
pub proof fn lemma_encoding_round_trip(v: u64)
    ensures
        encoding(v).len() == min_len(v),
        needed_len(encoding(v)[0]) == min_len(v),
        value_of(encoding(v)) == v,
        is_canonical(encoding(v)),
{
    lemma_byte_bound_values();
    if v < 0x80 {
        let e: int = v * 2 + 1;
        lemma_le_bytes_len(e, 1);
        lemma_le_bytes_int(e, 1);
        lemma_fundamental_div_mod_converse(e, 2, v as int, 1);
        assert(encoding(v)[0] == ((v * 2 + 1) % 256) as u8);
        assert(needed_len(((v * 2 + 1) % 256) as u8) == 1) by (bit_vector);
    } else if v < 0x4000 {
        let e: int = v * 4 + 2;
        lemma_le_bytes_len(e, 2);
        lemma_le_bytes_int(e, 2);
        lemma_fundamental_div_mod_converse(e, 4, v as int, 2);
        assert(encoding(v)[0] == ((v * 4 + 2) % 256) as u8);
        assert(needed_len(((v * 4 + 2) % 256) as u8) == 2) by (bit_vector);
    } else if v < 0x20_0000 {
        let e: int = v * 8 + 4;
        lemma_le_bytes_len(e, 3);
        lemma_le_bytes_int(e, 3);
        lemma_fundamental_div_mod_converse(e, 8, v as int, 4);
        assert(encoding(v)[0] == ((v * 8 + 4) % 256) as u8);
        assert(needed_len(((v * 8 + 4) % 256) as u8) == 3) by (bit_vector);
    } else if v < 0x1000_0000 {
        let e: int = v * 16 + 8;
        lemma_le_bytes_len(e, 4);
        lemma_le_bytes_int(e, 4);
        lemma_fundamental_div_mod_converse(e, 16, v as int, 8);
        assert(encoding(v)[0] == ((v * 16 + 8) % 256) as u8);
        assert(needed_len(((v * 16 + 8) % 256) as u8) == 4) by (bit_vector);
    } else if v < 0x8_0000_0000 {
        let e: int = v * 32 + 16;
        lemma_le_bytes_len(e, 5);
        lemma_le_bytes_int(e, 5);
        lemma_fundamental_div_mod_converse(e, 32, v as int, 16);
        assert(encoding(v)[0] == ((v * 32 + 16) % 256) as u8);
        assert(needed_len(((v * 32 + 16) % 256) as u8) == 5) by (bit_vector);
    } else if v < 0x400_0000_0000 {
        let e: int = v * 64 + 32;
        lemma_le_bytes_len(e, 6);
        lemma_le_bytes_int(e, 6);
        lemma_fundamental_div_mod_converse(e, 64, v as int, 32);
        assert(encoding(v)[0] == ((v * 64 + 32) % 256) as u8);
        assert(needed_len(((v * 64 + 32) % 256) as u8) == 6) by (bit_vector);
    } else if v < 0x2_0000_0000_0000 {
        let e: int = v * 128 + 64;
        lemma_le_bytes_len(e, 7);
        lemma_le_bytes_int(e, 7);
        lemma_fundamental_div_mod_converse(e, 128, v as int, 64);
        assert(encoding(v)[0] == ((v * 128 + 64) % 256) as u8);
        assert(needed_len(((v * 128 + 64) % 256) as u8) == 7) by (bit_vector);
    } else if v < 0x100_0000_0000_0000 {
        let e: int = v * 256 + 128;
        lemma_le_bytes_len(e, 8);
        lemma_le_bytes_int(e, 8);
        lemma_fundamental_div_mod_converse(e, 256, v as int, 128);
        assert(encoding(v)[0] == ((v * 256 + 128) % 256) as u8);
        assert(needed_len(((v * 256 + 128) % 256) as u8) == 8) by (bit_vector);
    } else {
        let b: Seq<u8> = le_bytes(v as int, 8);
        lemma_le_bytes_len(v as int, 8);
        lemma_le_bytes_int(v as int, 8);
        let enc: Seq<u8> = seq![0u8] + b;
        assert(encoding(v) == enc);
        assert(enc[0] == 0u8);
        assert(enc.skip(1) =~= b);
    }
}

proof fn lemma_byte_bound_le(k: int)
    requires
        0 <= k <= 7,
    ensures
        byte_bound(k) <= 0x100_0000_0000_0000,
{
    lemma_byte_bound_values();
    if k == 0 {
    } else if k == 1 {
    } else if k == 2 {
    } else if k == 3 {
    } else if k == 4 {
    } else if k == 5 {
    } else if k == 6 {
    } else {
        assert(k == 7);
    }
}

/// Number of bytes in the encoding that starts with `first`.
pub fn decoded_len(first: u8) -> (r: usize)
    ensures
        r == needed_len(first),
{
    if first % 2 == 1 {
        1
    } else if first % 4 == 2 {
        2
    } else if first % 8 == 4 {
        3
    } else if first % 16 == 8 {
        4
    } else if first % 32 == 16 {
        5
    } else if first % 64 == 32 {
        6
    } else if first % 128 == 64 {
        7
    } else if first == 128 {
        8
    } else {
        9
    }
}

/// Reads `buf[start..end]` as a little-endian integer.
fn assemble(buf: &Vec<u8>, start: usize, end: usize) -> (r: u64)
    requires
        start <= end,
        end <= buf@.len(),
        end - start <= 8,
    ensures
        r == le_int(buf@.subrange(start as int, end as int)),
{
    let mut acc: u64 = 0;
    let mut j: usize = end;
    while j > start
        invariant
            start <= j <= end <= buf@.len(),
            end - start <= 8,
            acc == le_int(buf@.subrange(j as int, end as int)),
        decreases j,
    {
        j = j - 1;
        let b = buf[j];
        proof {
            let s: Seq<u8> = buf@.subrange(j as int, end as int);
            assert(s[0] == buf@[j as int]);
            assert(s.skip(1) =~= buf@.subrange(j as int + 1, end as int));
            lemma_le_int_bound(buf@.subrange(j as int + 1, end as int));
            lemma_byte_bound_le(end - j - 1);
        }
        acc = acc * 256 + (b as u64);
    }
    acc
}

/// Decodes one complete encoding held in `buf`.
fn finish(buf: &Vec<u8>) -> (r: Result<u64, Error>)
    requires
        buf@.len() >= 1,
        buf@.len() == needed_len(buf@[0]),
    ensures
        r == complete_result(buf@),
{
    proof {
        lemma_byte_bound_values();
    }
    let l = buf.len();
    if l == 9 {
        let v = assemble(buf, 1, 9);
        proof {
            assert(buf@.subrange(1, 9) =~= buf@.skip(1));
            lemma_le_int_bound(buf@.skip(1));
        }
        if v >= 0x100_0000_0000_0000 {
            Ok(v)
        } else {
            Err(Error::Decode { element: Element::Tag, wire_type: None })
        }
    } else {
        let acc = assemble(buf, 0, l);
        proof {
            assert(buf@.subrange(0, l as int) =~= buf@);
            lemma_le_int_bound(buf@);
        }
        let v: u64;
        let lo: u64;
        if l == 1 {
            v = acc / 2;
            lo = 0;
            assert(acc < 0x100 ==> acc / 2 < 0x80) by (bit_vector);
        } else if l == 2 {
            v = acc / 4;
            lo = 0x80;
            assert(acc < 0x1_0000 ==> acc / 4 < 0x4000) by (bit_vector);
        } else if l == 3 {
            v = acc / 8;
            lo = 0x4000;
            assert(acc < 0x100_0000 ==> acc / 8 < 0x20_0000) by (bit_vector);
        } else if l == 4 {
            v = acc / 16;
            lo = 0x20_0000;
            assert(acc < 0x1_0000_0000 ==> acc / 16 < 0x1000_0000) by (bit_vector);
        } else if l == 5 {
            v = acc / 32;
            lo = 0x1000_0000;
            assert(acc < 0x100_0000_0000 ==> acc / 32 < 0x8_0000_0000) by (bit_vector);
        } else if l == 6 {
            v = acc / 64;
            lo = 0x8_0000_0000;
            assert(acc < 0x1_0000_0000_0000 ==> acc / 64 < 0x400_0000_0000) by (bit_vector);
        } else if l == 7 {
            v = acc / 128;
            lo = 0x400_0000_0000;
            assert(acc < 0x100_0000_0000_0000 ==> acc / 128 < 0x2_0000_0000_0000)
                by (bit_vector);
        } else {
            assert(l == 8);
            v = acc / 256;
            lo = 0x2_0000_0000_0000;
            assert(acc < 0x1_0000_0000_0000_0000 ==> acc / 256 < 0x100_0000_0000_0000)
                by (bit_vector);
        }
        assert(v == value_of(buf@));
        assert(v < low_bound(l as int + 1));
        if l == 1 || v >= lo {
            Ok(v)
        } else {
            Err(Error::Decode { element: Element::Tag, wire_type: None })
        }
    }
}

/// Writes the `l` little-endian bytes of `e`.
fn emit(e: u64, l: usize) -> (r: Vec<u8>)
    requires
        1 <= l <= 8,
        (e as int) < byte_bound(l as int),
    ensures
        r@ == le_bytes(e as int, l as int),
{
    let ghost e0: int = e as int;
    let mut rest: u64 = e;
    let mut out: Vec<u8> = Vec::new();
    let mut i: usize = 0;
    while i < l
        invariant
            0 <= i <= l <= 8,
            out@.len() == i,
            le_bytes(e0, l as int) =~= out@ + le_bytes(rest as int, l - i),
        decreases l - i,
    {
        let ghost before: Seq<u8> = out@;
        let b: u8 = (rest % 256) as u8;
        out.push(b);
        proof {
            assert(le_bytes(rest as int, l - i) == seq![((rest as int) % 256) as u8]
                + le_bytes((rest as int) / 256, l - i - 1));
            assert(out@ =~= before + seq![b]);
            assert((before + seq![b]) + le_bytes((rest as int) / 256, l - i - 1)
                =~= before + (seq![b] + le_bytes((rest as int) / 256, l - i - 1)));
        }
        rest = rest / 256;
        i = i + 1;
    }
    proof {
        assert(le_bytes(rest as int, 0) =~= Seq::<u8>::empty());
        assert(out@ + Seq::<u8>::empty() =~= out@);
    }
    out
}

/// Encodes `value` in its canonical form.
pub fn encode(value: u64) -> (r: Vec<u8>)
    ensures
        r@ == encoding(value),
{
    proof {
        lemma_byte_bound_values();
    }
    if value < 0x80 {
        emit(value * 2 + 1, 1)
    } else if value < 0x4000 {
        emit(value * 4 + 2, 2)
    } else if value < 0x20_0000 {
        emit(value * 8 + 4, 3)
    } else if value < 0x1000_0000 {
        emit(value * 16 + 8, 4)
    } else if value < 0x8_0000_0000 {
        emit(value * 32 + 16, 5)
    } else if value < 0x400_0000_0000 {
        emit(value * 64 + 32, 6)
    } else if value < 0x2_0000_0000_0000 {
        emit(value * 128 + 64, 7)
    } else if value < 0x100_0000_0000_0000 {
        emit(value * 256 + 128, 8)
    } else {
        let mut out: Vec<u8> = Vec::new();
        out.push(0);
        let mut tail = emit(value, 8);
        out.append(&mut tail);
        proof {
            assert(out@ =~= seq![0u8] + le_bytes(value as int, 8));
        }
        out
    }
}

/// Resumable decoder for a single varint.
///
/// Holds the bytes consumed so far, always fewer than the encoding
/// needs: the moment the encoding completes, its value is returned and
/// the decoder is left fresh.
#[derive(Debug, Default)]
pub struct Decoder {
    buffer: Vec<u8>,
}

impl View for Decoder {
    type V = Seq<u8>;

    closed spec fn view(&self) -> Seq<u8> {
        self.buffer@
    }
}

impl Decoder {
    /// A partial decoder never holds a complete encoding.
    pub open spec fn wf(self) -> bool {
        self@.len() == 0 || self@.len() < needed_len(self@[0])
    }

    /// A fresh decoder with no progress.
    pub fn new() -> (r: Decoder)
        ensures
            r@ == Seq::<u8>::empty(),
            r.wf(),
    {
        Decoder { buffer: Vec::new() }
    }

    /// Process the given input data, advancing the slice by the amount
    /// consumed.
    ///
    /// Viewing the decoder's prior bytes followed by the input as one
    /// stream: while the stream is shorter than its first byte requires,
    /// all input is consumed into the decoder and no value is produced;
    /// once the encoding at the front of the stream is complete, exactly
    /// its bytes are consumed and its value — or a decode failure for a
    /// non-canonical encoding — is returned, leaving the decoder fresh.
    #[verifier::rlimit(30)]
    pub fn decode<'a>(&mut self, input: &mut &'a [u8]) -> (r: Result<Option<u64>, Error>)
        requires
            old(self).wf(),
        ensures
            final(self).wf(),
            ({
                let t = old(self)@ + (*old(input))@;
                if !stream_complete(t) {
                    &&& r == Ok::<Option<u64>, Error>(None)
                    &&& final(self)@ == t
                    &&& (*final(input))@ == Seq::<u8>::empty()
                } else {
                    &&& final(self)@ == Seq::<u8>::empty()
                    &&& (*final(input))@ == (*old(input))@.skip(
                        needed_len(t[0]) - old(self)@.len())
                    &&& r == (match complete_result(stream_encoding(t)) {
                        Ok(v) => Ok::<Option<u64>, Error>(Some(v)),
                        Err(e) => Err::<Option<u64>, Error>(e),
                    })
                }
            }),
    {
        let s: &'a [u8] = *input;
        let ghost t: Seq<u8> = self.buffer@ + s@;
        let slen = s.len();
        let have = self.buffer.len();
        let first: u8;
        if have > 0 {
            first = self.buffer[0];
        } else if slen > 0 {
            first = *slice_index_get(s, 0);
        } else {
            proof {
                assert(t =~= Seq::<u8>::empty());
            }
            return Ok(None);
        }
        assert(first == t[0]);
        let n = decoded_len(first);
        assert(have < n);
        let want = n - have;
        if slen < want {
            let mut i: usize = 0;
            while i < slen
                invariant
                    i <= slen,
                    slen == s@.len(),
                    self.buffer@ == old(self)@ + s@.take(i as int),
                decreases slen - i,
            {
                let b = *slice_index_get(s, i);
                proof {
                    assert(s@.take(i as int).push(b) =~= s@.take(i as int + 1));
                }
                self.buffer.push(b);
                i = i + 1;
            }
            *input = slice_subrange(s, slen, slen);
            proof {
                assert(s@.take(slen as int) =~= s@);
                assert(self.buffer@ == t);
                assert((*input)@ =~= Seq::<u8>::empty());
                assert(!stream_complete(t));
            }
            Ok(None)
        } else {
            let mut i: usize = 0;
            while i < want
                invariant
                    i <= want,
                    want <= slen == s@.len(),
                    self.buffer@ == old(self)@ + s@.take(i as int),
                decreases want - i,
            {
                let b = *slice_index_get(s, i);
                proof {
                    assert(s@.take(i as int).push(b) =~= s@.take(i as int + 1));
                }
                self.buffer.push(b);
                i = i + 1;
            }
            *input = slice_subrange(s, want, slen);
            proof {
                assert(self.buffer@ =~= t.take(n as int));
                assert(self.buffer@ =~= stream_encoding(t));
                assert(self.buffer@[0] == t[0]);
                assert((*input)@ =~= s@.skip(want as int));
            }
            let res = finish(&self.buffer);
            self.buffer = Vec::new();
            match res {
                Ok(v) => Ok(Some(v)),
                Err(e) => Err(e),
            }
        }
    }
}

} // verus!
