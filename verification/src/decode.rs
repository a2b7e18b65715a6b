//! Decoding into a caller's buffer or a new vector.
use vstd::prelude::*;
use crate::encode::written_at;
use crate::spec::{
    decode_group, decode_last_group, decoded_byte0, decoded_byte1, decoded_byte2, spec_decode,
    spec_decode_exact_len, spec_decode_omit, spec_decode_padded, value_of, B64_URL_PAD,
};
use crate::tables::{build_b64_url_decode_table, lemma_value_symbol};

verus! {

/// The table maps every byte to its 6-bit value.
pub open spec fn is_decode_table(table: Seq<u8>) -> bool {
    &&& table.len() == 256
    &&& forall|c: u8| #[trigger] table[c as int] == value_of(c)
}

/// The length of the unpadded decoding of `n` symbols.
pub open spec fn spec_decoded_len_omit(n: nat) -> nat {
    (n / 4) * 3 + (if n % 4 >= 2 { (n % 4 - 1) as nat } else { 0nat })
}

/// The unpadded decoding of `chars` has `spec_decoded_len_omit` bytes.
pub proof fn lemma_decode_omit_len(chars: Seq<u8>)
    ensures
        spec_decode_omit(chars).len() == spec_decoded_len_omit(chars.len()),
    decreases chars.len(),
{
    if chars.len() >= 4 {
        lemma_decode_omit_len(chars.skip(4));
    }
}

/// The padded decoding of `chars` has three bytes per group of four but for
/// the one or two bytes that padding in the last group takes off.
pub proof fn lemma_decode_padded_len(chars: Seq<u8>)
    ensures
        spec_decode_padded(chars).len() <= (chars.len() / 4) * 3,
        chars.len() >= 4 && chars.len() % 4 == 0 ==> spec_decode_padded(chars).len() == (
        chars.len() / 4) * 3 - (if chars[chars.len() - 2] == B64_URL_PAD {
            2int
        } else if chars[chars.len() - 1] == B64_URL_PAD {
            1int
        } else {
            0int
        }),
    decreases chars.len(),
{
    if chars.len() >= 8 {
        let rest = chars.skip(4);
        lemma_decode_padded_len(rest);
        assert(rest[rest.len() - 2] == chars[chars.len() - 2]);
        assert(rest[rest.len() - 1] == chars[chars.len() - 1]);
    }
}

/// The length that `b64_url_decode_calculate_exact_length` announces bounds
/// the decoding, and is its length exactly without padding.
pub proof fn lemma_decode_exact_len_bound(chars: Seq<u8>, omit_padding: bool)
    ensures
        spec_decode_exact_len(chars, omit_padding) matches Some(n) ==> spec_decode(
            chars,
            omit_padding,
        ).len() <= n,
        omit_padding ==> (spec_decode_exact_len(chars, omit_padding) matches Some(n)
            ==> spec_decode_omit(chars).len() == n),
{
    lemma_decode_omit_len(chars);
    lemma_decode_padded_len(chars);
}

/// The three bytes of four 6-bit values packed big-endian into a `u32`.
proof fn lemma_unpack4(t0: u8, t1: u8, t2: u8, t3: u8, value: u32)
    requires
        t0 < 64,
        t1 < 64,
        t2 < 64,
        t3 < 64,
        value == ((t0 as u32) << 18) | ((t1 as u32) << 12) | ((t2 as u32) << 6) | (t3 as u32),
    ensures
        ((value >> 16) & 0xff) == t0 * 4 + t1 / 16,
        ((value >> 8) & 0xff) == (t1 % 16) * 16 + t2 / 4,
        (value & 0xff) == (t2 % 4) * 64 + t3,
{
    assert(((value >> 16) & 0xff) == t0 * 4 + t1 / 16 && ((value >> 8) & 0xff) == (t1 % 16) * 16
        + t2 / 4 && (value & 0xff) == (t2 % 4) * 64 + t3) by (bit_vector)
        requires
            t0 < 64,
            t1 < 64,
            t2 < 64,
            t3 < 64,
            value == ((t0 as u32) << 18) | ((t1 as u32) << 12) | ((t2 as u32) << 6) | (t3 as u32),
    ;
}

/// The 6-bit values of the bytes, looked up in `table`, packed into a `u32`.
fn pack_values(table: &[u8; 256], c0: u8, c1: u8, c2: u8, c3: u8) -> (value: u32)
    requires
        is_decode_table(table@),
    ensures
        ((value >> 16) & 0xff) == decoded_byte0(c0, c1),
        ((value >> 8) & 0xff) == decoded_byte1(c1, c2),
        (value & 0xff) == decoded_byte2(c2, c3),
{
    let t0 = table[c0 as usize];
    let t1 = table[c1 as usize];
    let t2 = table[c2 as usize];
    let t3 = table[c3 as usize];
    proof {
        lemma_value_symbol(c0);
        lemma_value_symbol(c1);
        lemma_value_symbol(c2);
        lemma_value_symbol(c3);
    }
    let value = ((t0 as u32) << 18) | ((t1 as u32) << 12) | ((t2 as u32) << 6) | (t3 as u32);
    proof {
        lemma_unpack4(t0, t1, t2, t3, value);
    }
    value
}

/// Writes the three bytes of the group `c0 c1 c2 c3` at `at`, looking the
/// symbols up in `table`.
pub fn decode_4_from_bytes(
    table: &[u8; 256],
    c0: u8,
    c1: u8,
    c2: u8,
    c3: u8,
    out: &mut [u8],
    at: usize,
)
    requires
        is_decode_table(table@),
        at + 3 <= old(out)@.len(),
    ensures
        written_at(old(out)@, final(out)@, at as int, decode_group(c0, c1, c2, c3)),
{
    let value = pack_values(table, c0, c1, c2, c3);
    out[at] = ((value >> 16) & 0b1111_1111) as u8;
    out[at + 1] = ((value >> 8) & 0b1111_1111) as u8;
    out[at + 2] = (value & 0b1111_1111) as u8;
    assert(out@.subrange(at as int, at + 3) =~= decode_group(c0, c1, c2, c3));
    assert(out@.take(at as int) =~= old(out)@.take(at as int));
    assert(out@.skip(at + 3) =~= old(out)@.skip(at + 3));
}

/// Writes the three bytes of the group held little-endian in `value` (first
/// symbol in the low byte) at `at`.
pub fn decode_4_from_u32_le(table: &[u8; 256], value: u32, out: &mut [u8], at: usize)
    requires
        is_decode_table(table@),
        at + 3 <= old(out)@.len(),
    ensures
        written_at(
            old(out)@,
            final(out)@,
            at as int,
            decode_group(
                (value & 0xff) as u8,
                ((value >> 8) & 0xff) as u8,
                ((value >> 16) & 0xff) as u8,
                ((value >> 24) & 0xff) as u8,
            ),
        ),
{
    let b0 = (value & 0xff) as u8;
    let b1 = ((value >> 8) & 0xff) as u8;
    let b2 = ((value >> 16) & 0xff) as u8;
    let b3 = ((value >> 24) & 0xff) as u8;
    decode_4_from_bytes(table, b0, b1, b2, b3, out, at);
}

/// Writes the bytes of the last group of a padded input at `at` and returns
/// how many there are.
fn decode_last_4_at(
    table: &[u8; 256],
    b0: u8,
    b1: u8,
    b2: u8,
    b3: u8,
    out: &mut [u8],
    at: usize,
) -> (written: usize)
    requires
        is_decode_table(table@),
        at + decode_last_group(b0, b1, b2, b3).len() <= old(out)@.len(),
    ensures
        written == decode_last_group(b0, b1, b2, b3).len(),
        written_at(old(out)@, final(out)@, at as int, decode_last_group(b0, b1, b2, b3)),
{
    let value = pack_values(table, b0, b1, b2, b3);
    let written: usize;
    if b2 == B64_URL_PAD {
        out[at] = ((value >> 16) & 0b1111_1111) as u8;
        written = 1;
    } else if b3 == B64_URL_PAD {
        out[at] = ((value >> 16) & 0b1111_1111) as u8;
        out[at + 1] = ((value >> 8) & 0b1111_1111) as u8;
        written = 2;
    } else {
        out[at] = ((value >> 16) & 0b1111_1111) as u8;
        out[at + 1] = ((value >> 8) & 0b1111_1111) as u8;
        out[at + 2] = (value & 0b1111_1111) as u8;
        written = 3;
    }
    assert(out@.subrange(at as int, at + written) =~= decode_last_group(b0, b1, b2, b3));
    assert(out@.take(at as int) =~= old(out)@.take(at as int));
    assert(out@.skip(at + written) =~= old(out)@.skip(at + written));
    written
}

/// The exact length of the decoding, or `None` when the length of the input
/// cannot be that of an encoding.
pub fn b64_url_decode_calculate_exact_length(bytes: &[u8], omit_padding: bool) -> (exact: Option<
    usize,
>)
    ensures
        match exact {
            None => spec_decode_exact_len(bytes@, omit_padding) is None,
            Some(n) => spec_decode_exact_len(bytes@, omit_padding) == Some(n as nat),
        },
{
    let length = bytes.len();
    if omit_padding {
        let full = (length / 4) * 3;
        match length % 4 {
            0 => Some(full),
            2 => Some(full + 1),
            3 => Some(full + 2),
            _ => None,
        }
    } else {
        if length % 4 != 0 {
            return None;
        }
        let mut pad: usize = 0;
        if length >= 1 && bytes[length - 1] == B64_URL_PAD {
            pad += 1;
        }
        if length >= 2 && bytes[length - 2] == B64_URL_PAD {
            pad += 1;
        }
        Some((length / 4) * 3 - pad)
    }
}

/// Decodes `bytes`, read without padding, at the start of `out`; returns the
/// number of bytes written and leaves the rest of `out` as it was.
pub fn unsafe_b64_url_decode_with_omit_padding_to_slice(bytes: &[u8], out: &mut [u8]) -> (out_len:
    usize)
    requires
        spec_decode_omit(bytes@).len() <= old(out)@.len(),
    ensures
        out_len == spec_decode_omit(bytes@).len(),
        final(out)@ == spec_decode_omit(bytes@) + old(out)@.skip(out_len as int),
{
    let table = build_b64_url_decode_table();
    let length = bytes.len();
    let out_length = out.len();
    let mut i: usize = 0;
    let mut out_len: usize = 0;
    proof {
        lemma_decode_omit_len(bytes@);
    }
    assert(bytes@.skip(0) =~= bytes@);
    assert(out@.take(0) =~= Seq::<u8>::empty());
    while length - i >= 4
        invariant
            length == bytes@.len(),
            i <= length,
            i % 4 == 0,
            out_len == i / 4 * 3,
            is_decode_table(table@),
            out@.len() == old(out)@.len(),
            out_length == out@.len(),
            spec_decoded_len_omit(length as nat) <= out@.len(),
            spec_decode_omit(bytes@) == out@.take(out_len as int) + spec_decode_omit(
                bytes@.skip(i as int),
            ),
            out@.skip(out_len as int) == old(out)@.skip(out_len as int),
        decreases length - i,
    {
        let ghost before = out@;
        let ghost rest = bytes@.skip(i as int);
        assert(out_len + 3 <= spec_decoded_len_omit(length as nat)) by {
            assert((i + 4) / 4 <= length as int / 4) by (nonlinear_arith)
                requires
                    i + 4 <= length,
            ;
        }
        assert(rest.skip(4) =~= bytes@.skip(i + 4));
        let (c0, c1, c2, c3) = (bytes[i], bytes[i + 1], bytes[i + 2], bytes[i + 3]);
        decode_4_from_bytes(&table, c0, c1, c2, c3, out, out_len);
        assert(out@.take(out_len + 3) =~= before.take(out_len as int) + decode_group(
            rest[0],
            rest[1],
            rest[2],
            rest[3],
        )) by {
            assert(out@.take(out_len + 3) =~= out@.take(out_len as int) + out@.subrange(
                out_len as int,
                out_len + 3,
            ));
        }
        assert(out@.skip(out_len + 3) =~= old(out)@.skip(out_len + 3)) by {
            assert(before.skip(out_len + 3) =~= before.skip(out_len as int).skip(3));
            assert(old(out)@.skip(out_len + 3) =~= old(out)@.skip(out_len as int).skip(3));
        }
        i = i + 4;
        out_len = out_len + 3;
    }
    let ghost before = out@;
    let ghost rest = bytes@.skip(i as int);
    let ghost start = out_len as int;
    let remaining = length - i;
    assert(i / 4 == length / 4);
    assert(rest.len() == remaining);
    if remaining == 2 {
        let value = pack_values(&table, bytes[i], bytes[i + 1], 0x41u8, 0x41u8);
        out[out_len] = ((value >> 16) & 0b1111_1111) as u8;
        out_len = out_len + 1;
    } else if remaining == 3 {
        let value = pack_values(&table, bytes[i], bytes[i + 1], bytes[i + 2], 0x41u8);
        out[out_len] = ((value >> 16) & 0b1111_1111) as u8;
        out[out_len + 1] = ((value >> 8) & 0b1111_1111) as u8;
        out_len = out_len + 2;
    }
    proof {
        let tail = spec_decode_omit(rest);
        assert(tail.len() == out_len - start);
        assert(out@.take(start) =~= before.take(start));
        assert(out@.subrange(start, out_len as int) =~= tail);
        assert(out@ =~= out@.take(start) + out@.subrange(start, out_len as int) + out@.skip(
            out_len as int,
        ));
        assert(out@.skip(out_len as int) =~= before.skip(out_len as int));
        assert(before.skip(out_len as int) =~= before.skip(start).skip(out_len - start));
        assert(old(out)@.skip(out_len as int) =~= old(out)@.skip(start).skip(out_len - start));
    }
    out_len
}

/// Decodes `bytes`, read with padding, at the start of `out`; returns the
/// number of bytes written and leaves the rest of `out` as it was.
pub fn unsafe_b64_url_decode_with_padding_to_slice(bytes: &[u8], out: &mut [u8]) -> (out_len:
    usize)
    requires
        spec_decode_padded(bytes@).len() <= old(out)@.len(),
    ensures
        out_len == spec_decode_padded(bytes@).len(),
        final(out)@ == spec_decode_padded(bytes@) + old(out)@.skip(out_len as int),
{
    let length = bytes.len();
    let out_length = out.len();
    let mut out_len: usize = 0;
    let chunk_count = length / 4;
    if chunk_count > 0 {
        let table = build_b64_url_decode_table();
        let bulk_end = (chunk_count - 1) * 4;
        let mut i: usize = 0;
        proof {
            lemma_decode_padded_len(bytes@);
        }
        assert(bytes@.skip(0) =~= bytes@);
        assert(out@.take(0) =~= Seq::<u8>::empty());
        while i < bulk_end
            invariant
                length == bytes@.len(),
                chunk_count == length / 4,
                chunk_count > 0,
                bulk_end == (chunk_count - 1) * 4,
                i <= bulk_end,
                i % 4 == 0,
                out_len == i / 4 * 3,
                out_len <= out@.len(),
                is_decode_table(table@),
                out@.len() == old(out)@.len(),
                out_length == out@.len(),
                spec_decode_padded(bytes@).len() <= out@.len(),
                spec_decode_padded(bytes@) == out@.take(out_len as int) + spec_decode_padded(
                    bytes@.skip(i as int),
                ),
                out@.skip(out_len as int) == old(out)@.skip(out_len as int),
            decreases bulk_end - i,
        {
            let ghost before = out@;
            let ghost rest = bytes@.skip(i as int);
            assert(rest.len() >= 8);
            proof {
                lemma_decode_padded_len(rest.skip(4));
            }
            assert(rest.skip(4) =~= bytes@.skip(i + 4));
            assert(spec_decode_padded(rest) == decode_group(rest[0], rest[1], rest[2], rest[3])
                + spec_decode_padded(rest.skip(4)));
            assert(out_len + 3 <= spec_decode_padded(bytes@).len());
            let (c0, c1, c2, c3) = (bytes[i], bytes[i + 1], bytes[i + 2], bytes[i + 3]);
        decode_4_from_bytes(&table, c0, c1, c2, c3, out, out_len);
            assert(out@.take(out_len + 3) =~= before.take(out_len as int) + decode_group(
                rest[0],
                rest[1],
                rest[2],
                rest[3],
            )) by {
                assert(out@.take(out_len + 3) =~= out@.take(out_len as int) + out@.subrange(
                    out_len as int,
                    out_len + 3,
                ));
            }
            assert(out@.skip(out_len + 3) =~= old(out)@.skip(out_len + 3)) by {
                assert(before.skip(out_len + 3) =~= before.skip(out_len as int).skip(3));
                assert(old(out)@.skip(out_len + 3) =~= old(out)@.skip(out_len as int).skip(3));
            }
            i = i + 4;
            out_len = out_len + 3;
        }
        let ghost before = out@;
        let ghost rest = bytes@.skip(i as int);
        let ghost start = out_len as int;
        assert(4 <= rest.len() < 8);
        assert(spec_decode_padded(rest) == decode_last_group(rest[0], rest[1], rest[2], rest[3]));
        let (c0, c1, c2, c3) = (bytes[i], bytes[i + 1], bytes[i + 2], bytes[i + 3]);
        let written = decode_last_4_at(&table, c0, c1, c2, c3, out, out_len);
        out_len = out_len + written;
        proof {
            let tail = decode_last_group(rest[0], rest[1], rest[2], rest[3]);
            assert(spec_decode_padded(rest) == tail);
            assert(tail.len() == out_len - start);
            assert(out@.take(start) =~= before.take(start));
            assert(out@.subrange(start, out_len as int) =~= tail);
            assert(out@ =~= out@.take(start) + out@.subrange(start, out_len as int) + out@.skip(
                out_len as int,
            ));
            assert(out@.skip(out_len as int) =~= before.skip(out_len as int));
            assert(before.skip(out_len as int) =~= before.skip(start).skip(out_len - start));
            assert(old(out)@.skip(out_len as int) =~= old(out)@.skip(start).skip(out_len - start));
        }
    } else {
        assert(old(out)@.skip(0) =~= old(out)@);
    }
    out_len
}

/// Decodes `bytes`, read without padding, into a new vector.
pub fn unsafe_b64_url_decode_with_omit_padding(bytes: &[u8]) -> (decoded: Vec<u8>)
    ensures
        decoded@ == spec_decode_omit(bytes@),
{
    let length = bytes.len();
    let capacity = length / 4 * 3 + (length % 4) * 3 / 4;
    let mut vec: Vec<u8> = vec![0u8; capacity];
    proof {
        lemma_decode_omit_len(bytes@);
    }
    let out_len = unsafe_b64_url_decode_with_omit_padding_to_slice(bytes, vec.as_mut_slice());
    vec.truncate(out_len);
    vec
}

/// Decodes `bytes`, read with padding, into a new vector.
pub fn unsafe_b64_url_decode_with_padding(bytes: &[u8]) -> (decoded: Vec<u8>)
    ensures
        decoded@ == spec_decode_padded(bytes@),
{
    let length = bytes.len();
    let capacity = length / 4 * 3;
    let mut vec: Vec<u8> = vec![0u8; capacity];
    proof {
        lemma_decode_padded_len(bytes@);
    }
    let out_len = unsafe_b64_url_decode_with_padding_to_slice(bytes, vec.as_mut_slice());
    vec.truncate(out_len);
    vec
}

} // verus!
