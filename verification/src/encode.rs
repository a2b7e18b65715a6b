//! Encoding into a caller's buffer.
use vstd::prelude::*;
use crate::spec::{
    encode_group, encode_tail1, encode_tail2, spec_encode, spec_encoded_len, symbol_of, B64_URL_PAD,
};
use crate::tables::b64_url_encode_symbol;
use crate::B64Config;

verus! {

/// The encoding of `bytes` is `spec_encoded_len` symbols long.
pub proof fn lemma_encode_len(bytes: Seq<u8>, omit_padding: bool)
    ensures
        spec_encode(bytes, omit_padding).len() == spec_encoded_len(bytes.len(), omit_padding),
    decreases bytes.len(),
{
    if bytes.len() >= 3 {
        lemma_encode_len(bytes.skip(3), omit_padding);
    }
}

/// The room the original reserves for the encoding of `length` bytes: enough
/// under either configuration.
pub fn b64_url_encode_calculate_destination_capacity(length: usize) -> (capacity: usize)
    requires
        length / 3 * 4 + 4 <= usize::MAX,
    ensures
        capacity == length / 3 * 4 + 4,
        capacity >= spec_encoded_len(length as nat, true),
        capacity >= spec_encoded_len(length as nat, false),
{
    length / 3 * 4 + 4
}

/// The exact length of the encoding of `length` bytes.
pub fn b64_url_encode_calculate_exact_length(length: usize, omit_padding: bool) -> (exact: usize)
    requires
        spec_encoded_len(length as nat, omit_padding) <= usize::MAX,
    ensures
        exact == spec_encoded_len(length as nat, omit_padding),
{
    let full = (length / 3) * 4;
    match length % 3 {
        0 => full,
        1 => {
            if omit_padding {
                full + 2
            } else {
                full + 4
            }
        },
        _ => {
            if omit_padding {
                full + 3
            } else {
                full + 4
            }
        },
    }
}

/// The four 6-bit fields of three bytes packed big-endian into a `u32`.
proof fn lemma_pack3(b0: u8, b1: u8, b2: u8, value: u32)
    requires
        value == ((b0 as u32) << 16) | ((b1 as u32) << 8) | (b2 as u32),
    ensures
        ((value >> 18) & 0x3f) == b0 / 4,
        ((value >> 12) & 0x3f) == (b0 % 4) * 16 + b1 / 16,
        ((value >> 6) & 0x3f) == (b1 % 16) * 4 + b2 / 64,
        (value & 0x3f) == b2 % 64,
{
    assert(((value >> 18) & 0x3f) == b0 / 4 && ((value >> 12) & 0x3f) == (b0 % 4) * 16 + b1 / 16
        && ((value >> 6) & 0x3f) == (b1 % 16) * 4 + b2 / 64 && (value & 0x3f) == b2 % 64)
        by (bit_vector)
        requires
            value == ((b0 as u32) << 16) | ((b1 as u32) << 8) | (b2 as u32),
    ;
}

/// `destination` after `symbols` were written at `at`, all else kept.
pub open spec fn written_at(before: Seq<u8>, after: Seq<u8>, at: int, symbols: Seq<u8>) -> bool {
    &&& after.len() == before.len()
    &&& after.take(at) == before.take(at)
    &&& after.subrange(at, at + symbols.len()) == symbols
    &&& after.skip(at + symbols.len()) == before.skip(at + symbols.len())
}

/// Writes the four symbols of the group `b0 b1 b2` at `at`.
fn encode_group_at(b0: u8, b1: u8, b2: u8, destination: &mut [u8], at: usize)
    requires
        at + 4 <= old(destination)@.len(),
    ensures
        written_at(old(destination)@, final(destination)@, at as int, encode_group(b0, b1, b2)),
{
    let value: u32 = ((b0 as u32) << 16) | ((b1 as u32) << 8) | (b2 as u32);
    proof {
        lemma_pack3(b0, b1, b2, value);
    }
    destination[at] = b64_url_encode_symbol(((value >> 18) & 0b11_1111) as u8);
    destination[at + 1] = b64_url_encode_symbol(((value >> 12) & 0b11_1111) as u8);
    destination[at + 2] = b64_url_encode_symbol(((value >> 6) & 0b11_1111) as u8);
    destination[at + 3] = b64_url_encode_symbol((value & 0b11_1111) as u8);
    assert(destination@.subrange(at as int, at + 4) =~= encode_group(b0, b1, b2));
    assert(destination@.take(at as int) =~= old(destination)@.take(at as int));
    assert(destination@.skip(at + 4) =~= old(destination)@.skip(at + 4));
}

/// Writes the final group of two bytes with its padding symbol at `at`.
pub fn encode_tail_2_with_padding(b0: u8, b1: u8, destination: &mut [u8], at: usize)
    requires
        at + 4 <= old(destination)@.len(),
    ensures
        written_at(old(destination)@, final(destination)@, at as int, encode_tail2(b0, b1, false)),
{
    let value: u32 = ((b0 as u32) << 16) | ((b1 as u32) << 8);
    proof {
        assert(value == ((b0 as u32) << 16) | ((b1 as u32) << 8) | (0u8 as u32)) by (bit_vector)
            requires
                value == ((b0 as u32) << 16) | ((b1 as u32) << 8),
        ;
        lemma_pack3(b0, b1, 0, value);
    }
    destination[at] = b64_url_encode_symbol(((value >> 18) & 0b11_1111) as u8);
    destination[at + 1] = b64_url_encode_symbol(((value >> 12) & 0b11_1111) as u8);
    destination[at + 2] = b64_url_encode_symbol(((value >> 6) & 0b11_1111) as u8);
    destination[at + 3] = B64_URL_PAD;
    assert(destination@.subrange(at as int, at + 4) =~= encode_tail2(b0, b1, false));
    assert(destination@.take(at as int) =~= old(destination)@.take(at as int));
    assert(destination@.skip(at + 4) =~= old(destination)@.skip(at + 4));
}

/// Writes the final group of two bytes, without padding, at `at`.
pub fn encode_tail_2_without_padding(b0: u8, b1: u8, destination: &mut [u8], at: usize)
    requires
        at + 3 <= old(destination)@.len(),
    ensures
        written_at(old(destination)@, final(destination)@, at as int, encode_tail2(b0, b1, true)),
{
    let value: u32 = ((b0 as u32) << 16) | ((b1 as u32) << 8);
    proof {
        assert(value == ((b0 as u32) << 16) | ((b1 as u32) << 8) | (0u8 as u32)) by (bit_vector)
            requires
                value == ((b0 as u32) << 16) | ((b1 as u32) << 8),
        ;
        lemma_pack3(b0, b1, 0, value);
    }
    destination[at] = b64_url_encode_symbol(((value >> 18) & 0b11_1111) as u8);
    destination[at + 1] = b64_url_encode_symbol(((value >> 12) & 0b11_1111) as u8);
    destination[at + 2] = b64_url_encode_symbol(((value >> 6) & 0b11_1111) as u8);
    assert(destination@.subrange(at as int, at + 3) =~= encode_tail2(b0, b1, true));
    assert(destination@.take(at as int) =~= old(destination)@.take(at as int));
    assert(destination@.skip(at + 3) =~= old(destination)@.skip(at + 3));
}

/// Writes the final group of one byte with its two padding symbols at `at`.
pub fn encode_tail_1_with_padding(b0: u8, destination: &mut [u8], at: usize)
    requires
        at + 4 <= old(destination)@.len(),
    ensures
        written_at(old(destination)@, final(destination)@, at as int, encode_tail1(b0, false)),
{
    let value: u32 = (b0 as u32) << 16;
    proof {
        assert(value == ((b0 as u32) << 16) | ((0u8 as u32) << 8) | (0u8 as u32)) by (bit_vector)
            requires
                value == (b0 as u32) << 16,
        ;
        lemma_pack3(b0, 0, 0, value);
    }
    destination[at] = b64_url_encode_symbol(((value >> 18) & 0b11_1111) as u8);
    destination[at + 1] = b64_url_encode_symbol(((value >> 12) & 0b11_1111) as u8);
    destination[at + 2] = B64_URL_PAD;
    destination[at + 3] = B64_URL_PAD;
    assert(destination@.subrange(at as int, at + 4) =~= encode_tail1(b0, false));
    assert(destination@.take(at as int) =~= old(destination)@.take(at as int));
    assert(destination@.skip(at + 4) =~= old(destination)@.skip(at + 4));
}

/// Writes the final group of one byte, without padding, at `at`.
pub fn encode_tail_1_without_padding(b0: u8, destination: &mut [u8], at: usize)
    requires
        at + 2 <= old(destination)@.len(),
    ensures
        written_at(old(destination)@, final(destination)@, at as int, encode_tail1(b0, true)),
{
    let value: u32 = (b0 as u32) << 16;
    proof {
        assert(value == ((b0 as u32) << 16) | ((0u8 as u32) << 8) | (0u8 as u32)) by (bit_vector)
            requires
                value == (b0 as u32) << 16,
        ;
        lemma_pack3(b0, 0, 0, value);
    }
    destination[at] = b64_url_encode_symbol(((value >> 18) & 0b11_1111) as u8);
    destination[at + 1] = b64_url_encode_symbol(((value >> 12) & 0b11_1111) as u8);
    assert(destination@.subrange(at as int, at + 2) =~= encode_tail1(b0, true));
    assert(destination@.take(at as int) =~= old(destination)@.take(at as int));
    assert(destination@.skip(at + 2) =~= old(destination)@.skip(at + 2));
}

/// Encodes `source` at the start of `destination` and returns the number of
/// symbols written; the rest of `destination` is left as it was.
pub fn b64_url_encode_with_config_to_slice(
    source: &[u8],
    destination: &mut [u8],
    config: &B64Config,
) -> (bytes: usize)
    requires
        spec_encoded_len(source@.len(), config.padding.omit) <= old(destination)@.len(),
    ensures
        bytes == spec_encoded_len(source@.len(), config.padding.omit),
        final(destination)@ == spec_encode(source@, config.padding.omit) + old(destination)@.skip(
            bytes as int,
        ),
{
    let ghost omit = config.padding.omit;
    let source_length = source.len();
    let destination_length = destination.len();
    let mut i: usize = 0;
    let mut bytes: usize = 0;
    assert(source@.skip(0) =~= source@);
    assert(destination@.take(0) =~= Seq::<u8>::empty());
    while source_length - i >= 3
        invariant
            source_length == source@.len(),
            i <= source_length,
            i % 3 == 0,
            bytes == i / 3 * 4,
            omit == config.padding.omit,
            destination@.len() == old(destination)@.len(),
            destination_length == destination@.len(),
            spec_encoded_len(source_length as nat, omit) <= destination@.len(),
            spec_encode(source@, omit) == destination@.take(bytes as int) + spec_encode(
                source@.skip(i as int),
                omit,
            ),
            destination@.skip(bytes as int) == old(destination)@.skip(bytes as int),
        decreases source_length - i,
    {
        let ghost before = destination@;
        let ghost rest = source@.skip(i as int);
        assert(bytes + 4 <= spec_encoded_len(source_length as nat, omit)) by {
            assert((i + 3) / 3 <= source_length as int / 3) by (nonlinear_arith)
                requires
                    i + 3 <= source_length,
            ;
        }
        assert(rest.skip(3) =~= source@.skip(i + 3));
        assert(rest[0] == source@[i as int] && rest[1] == source@[i + 1] && rest[2] == source@[i
            + 2]);
        encode_group_at(source[i], source[i + 1], source[i + 2], destination, bytes);
        assert(destination@.take(bytes + 4) =~= before.take(bytes as int) + encode_group(
            source@[i as int],
            source@[i + 1],
            source@[i + 2],
        )) by {
            assert(destination@.take(bytes + 4) =~= destination@.take(bytes as int)
                + destination@.subrange(bytes as int, bytes + 4));
        }
        assert(destination@.skip(bytes + 4) =~= old(destination)@.skip(bytes + 4)) by {
            assert(before.skip(bytes + 4) =~= before.skip(bytes as int).skip(4));
            assert(old(destination)@.skip(bytes + 4) =~= old(destination)@.skip(bytes as int).skip(
                4,
            ));
        }
        i = i + 3;
        bytes = bytes + 4;
    }
    let ghost before = destination@;
    let ghost rest = source@.skip(i as int);
    let remaining = source_length - i;
    let ghost tail = spec_encode(rest, omit);
    assert(i / 3 == source_length / 3);
    assert(rest.len() == remaining);
    if remaining == 2 {
        if config.padding.omit {
            encode_tail_2_without_padding(source[i], source[i + 1], destination, bytes);
            bytes = bytes + 3;
        } else {
            encode_tail_2_with_padding(source[i], source[i + 1], destination, bytes);
            bytes = bytes + 4;
        }
    } else if remaining == 1 {
        if config.padding.omit {
            encode_tail_1_without_padding(source[i], destination, bytes);
            bytes = bytes + 2;
        } else {
            encode_tail_1_with_padding(source[i], destination, bytes);
            bytes = bytes + 4;
        }
    }
    proof {
        lemma_encode_len(source@, omit);
        let start = (i / 3 * 4) as int;
        assert(tail.len() == bytes - start);
        assert(destination@.take(start) =~= before.take(start));
        assert(destination@.subrange(start, bytes as int) =~= tail);
        assert(destination@ =~= destination@.take(start) + destination@.subrange(
            start,
            bytes as int,
        ) + destination@.skip(bytes as int));
        assert(before.skip(bytes as int) =~= before.skip(start).skip(bytes - start));
        assert(old(destination)@.skip(bytes as int) =~= old(destination)@.skip(start).skip(
            bytes - start,
        ));
    }
    bytes
}

} // verus!
