//! The codec stated bit by bit against the alphabet written out symbol by
//! symbol, and the length rules stated on the input text alone.
use vstd::prelude::*;
use crate::spec::{
    decode_group, decoded_byte0, decoded_byte1, decoded_byte2, encode_group, encode_tail1,
    encode_tail2, spec_decode_exact_len, spec_decode_omit, spec_decode_padded, spec_encode,
    symbol_of, value_of,
};
use crate::tables::lemma_symbol_value;

verus! {

/// The URL-safe alphabet, in order of the 6-bit values:
/// `A`-`Z`, `a`-`z`, `0`-`9`, `-`, `_`.
pub open spec fn url_alphabet() -> Seq<u8> {
    seq![
        65u8, 66, 67, 68, 69, 70, 71, 72, 73, 74, 75, 76, 77, 78, 79, 80, 81, 82, 83, 84, 85, 86,
        87, 88, 89, 90, 97, 98, 99, 100, 101, 102, 103, 104, 105, 106, 107, 108, 109, 110, 111,
        112, 113, 114, 115, 116, 117, 118, 119, 120, 121, 122, 48, 49, 50, 51, 52, 53, 54, 55, 56,
        57, 45, 95,
    ]
}

/// The symbol of each 6-bit value is its entry in the alphabet, and reads back
/// as the value.
pub proof fn lemma_alphabet(v: int)
    requires
        0 <= v < 64,
    ensures
        url_alphabet()[v] == symbol_of(v),
        value_of(url_alphabet()[v]) == v,
{
    assert(url_alphabet().len() == 64);
    assert(url_alphabet()[v] == symbol_of(v));
    lemma_symbol_value(v);
}

/// The 6-bit fields of three bytes, taken big-endian, in the arithmetic the
/// model uses.
proof fn lemma_fields(b0: u8, b1: u8, b2: u8)
    ensures
        (b0 >> 2) as int == b0 as int / 4,
        (((b0 & 3) << 4) | (b1 >> 4)) as int == (b0 as int % 4) * 16 + b1 as int / 16,
        (((b1 & 15) << 2) | (b2 >> 6)) as int == (b1 as int % 16) * 4 + b2 as int / 64,
        (b2 & 63) as int == b2 as int % 64,
        ((b0 & 3) << 4) as int == (b0 as int % 4) * 16,
        ((b1 & 15) << 2) as int == (b1 as int % 16) * 4,
{
    assert((b0 >> 2) == b0 / 4 && (((b0 & 3) << 4) | (b1 >> 4)) == (b0 % 4) * 16 + b1 / 16 && (((
    b1 & 15) << 2) | (b2 >> 6)) == (b1 % 16) * 4 + b2 / 64 && (b2 & 63) == b2 % 64 && ((b0 & 3)
        << 4) == (b0 % 4) * 16 && ((b1 & 15) << 2) == (b1 % 16) * 4) by (bit_vector);
}

/// The bytes that 6-bit values join into, in the arithmetic the model uses.
proof fn lemma_joined(v0: u8, v1: u8, v2: u8, v3: u8)
    requires
        v0 < 64,
        v1 < 64,
        v2 < 64,
        v3 < 64,
    ensures
        ((v0 << 2) | (v1 >> 4)) as int == v0 as int * 4 + v1 as int / 16,
        (((v1 & 15) << 4) | (v2 >> 2)) as int == (v1 as int % 16) * 16 + v2 as int / 4,
        (((v2 & 3) << 6) | v3) as int == (v2 as int % 4) * 64 + v3 as int,
{
    assert(((v0 << 2) | (v1 >> 4)) == v0 * 4 + v1 / 16 && (((v1 & 15) << 4) | (v2 >> 2)) == (v1
        % 16) * 16 + v2 / 4 && (((v2 & 3) << 6) | v3) == (v2 % 4) * 64 + v3) by (bit_vector)
        requires
            v0 < 64,
            v1 < 64,
            v2 < 64,
            v3 < 64,
    ;
}

/// A full group of three bytes `b0 b1 b2`, whatever follows it, encodes to the
/// alphabet symbols of its four 6-bit fields, high bits first.
pub proof fn law_encode_full_group(b0: u8, b1: u8, b2: u8, rest: Seq<u8>, omit_padding: bool)
    ensures
        spec_encode(seq![b0, b1, b2] + rest, omit_padding) == seq![
            url_alphabet()[(b0 >> 2) as int],
            url_alphabet()[(((b0 & 3) << 4) | (b1 >> 4)) as int],
            url_alphabet()[(((b1 & 15) << 2) | (b2 >> 6)) as int],
            url_alphabet()[(b2 & 63) as int],
        ] + spec_encode(rest, omit_padding),
{
    let bytes = seq![b0, b1, b2] + rest;
    lemma_fields(b0, b1, b2);
    lemma_alphabet(b0 as int / 4);
    lemma_alphabet((b0 as int % 4) * 16 + b1 as int / 16);
    lemma_alphabet((b1 as int % 16) * 4 + b2 as int / 64);
    lemma_alphabet(b2 as int % 64);
    assert(bytes.skip(3) =~= rest);
    assert(bytes[0] == b0 && bytes[1] == b1 && bytes[2] == b2);
    assert(spec_encode(bytes, omit_padding) == encode_group(b0, b1, b2) + spec_encode(
        rest,
        omit_padding,
    ));
}

/// A final group of two bytes encodes to the symbols of its three 6-bit fields
/// (the last one filled with zero bits), then one `=` unless padding is omitted.
pub proof fn law_encode_two_byte_tail(b0: u8, b1: u8, omit_padding: bool)
    ensures
        spec_encode(seq![b0, b1], omit_padding) == seq![
            url_alphabet()[(b0 >> 2) as int],
            url_alphabet()[(((b0 & 3) << 4) | (b1 >> 4)) as int],
            url_alphabet()[((b1 & 15) << 2) as int],
        ] + (if omit_padding {
            Seq::<u8>::empty()
        } else {
            seq![61u8]
        }),
{
    lemma_fields(b0, b1, 0);
    lemma_alphabet(b0 as int / 4);
    lemma_alphabet((b0 as int % 4) * 16 + b1 as int / 16);
    lemma_alphabet((b1 as int % 16) * 4);
    let e = spec_encode(seq![b0, b1], omit_padding);
    assert(e == encode_tail2(b0, b1, omit_padding));
    assert(e =~= seq![
        url_alphabet()[(b0 >> 2) as int],
        url_alphabet()[(((b0 & 3) << 4) | (b1 >> 4)) as int],
        url_alphabet()[((b1 & 15) << 2) as int],
    ] + (if omit_padding {
        Seq::<u8>::empty()
    } else {
        seq![61u8]
    }));
}

/// A final single byte encodes to the symbols of its two 6-bit fields (the
/// second filled with zero bits), then two `=` unless padding is omitted.
pub proof fn law_encode_one_byte_tail(b0: u8, omit_padding: bool)
    ensures
        spec_encode(seq![b0], omit_padding) == seq![
            url_alphabet()[(b0 >> 2) as int],
            url_alphabet()[((b0 & 3) << 4) as int],
        ] + (if omit_padding {
            Seq::<u8>::empty()
        } else {
            seq![61u8, 61u8]
        }),
{
    lemma_fields(b0, 0, 0);
    lemma_alphabet(b0 as int / 4);
    lemma_alphabet((b0 as int % 4) * 16);
    let e = spec_encode(seq![b0], omit_padding);
    assert(e == encode_tail1(b0, omit_padding));
    assert(e =~= seq![url_alphabet()[(b0 >> 2) as int], url_alphabet()[((b0 & 3) << 4) as int]]
        + (if omit_padding {
        Seq::<u8>::empty()
    } else {
        seq![61u8, 61u8]
    }));
}

/// The alphabet symbols of four 6-bit values.
pub open spec fn symbols(v0: u8, v1: u8, v2: u8, v3: u8) -> Seq<u8> {
    seq![
        url_alphabet()[v0 as int],
        url_alphabet()[v1 as int],
        url_alphabet()[v2 as int],
        url_alphabet()[v3 as int],
    ]
}

/// The three bytes that four 6-bit values join into, high bits first.
pub open spec fn joined(v0: u8, v1: u8, v2: u8, v3: u8) -> Seq<u8> {
    seq![(v0 << 2) | (v1 >> 4), ((v1 & 15) << 4) | (v2 >> 2), ((v2 & 3) << 6) | v3]
}

/// The group of four symbols decodes to the bytes its values join into.
proof fn lemma_group_of_symbols(v0: u8, v1: u8, v2: u8, v3: u8)
    requires
        v0 < 64,
        v1 < 64,
        v2 < 64,
        v3 < 64,
    ensures
        ({
            let s = symbols(v0, v1, v2, v3);
            &&& decode_group(s[0], s[1], s[2], s[3]) == joined(v0, v1, v2, v3)
            &&& decoded_byte0(s[0], s[1]) == joined(v0, v1, v2, v3)[0]
            &&& decoded_byte1(s[1], s[2]) == joined(v0, v1, v2, v3)[1]
            &&& s[0] != 61u8 && s[1] != 61u8 && s[2] != 61u8 && s[3] != 61u8
        }),
{
    lemma_alphabet(v0 as int);
    lemma_alphabet(v1 as int);
    lemma_alphabet(v2 as int);
    lemma_alphabet(v3 as int);
    lemma_symbol_value(v0 as int);
    lemma_symbol_value(v1 as int);
    lemma_symbol_value(v2 as int);
    lemma_symbol_value(v3 as int);
    lemma_joined(v0, v1, v2, v3);
    let s = symbols(v0, v1, v2, v3);
    assert(decoded_byte2(s[2], s[3]) == joined(v0, v1, v2, v3)[2]);
    assert(decode_group(s[0], s[1], s[2], s[3]) =~= joined(v0, v1, v2, v3));
}

/// Without padding, a group of four alphabet symbols, whatever follows it,
/// decodes to the three bytes its 6-bit values join into.
pub proof fn law_decode_full_group_unpadded(v0: u8, v1: u8, v2: u8, v3: u8, rest: Seq<u8>)
    requires
        v0 < 64,
        v1 < 64,
        v2 < 64,
        v3 < 64,
    ensures
        spec_decode_omit(symbols(v0, v1, v2, v3) + rest) == joined(v0, v1, v2, v3)
            + spec_decode_omit(rest),
{
    let s = symbols(v0, v1, v2, v3);
    let t = s + rest;
    lemma_group_of_symbols(v0, v1, v2, v3);
    assert(t.skip(4) =~= rest);
    assert(t[0] == s[0] && t[1] == s[1] && t[2] == s[2] && t[3] == s[3]);
}

/// Without padding, a final group of three symbols decodes to the first two
/// bytes its values join into, and one of two symbols to the first byte.
pub proof fn law_decode_tails_unpadded(v0: u8, v1: u8, v2: u8)
    requires
        v0 < 64,
        v1 < 64,
        v2 < 64,
    ensures
        spec_decode_omit(symbols(v0, v1, v2, 0).take(3)) == joined(v0, v1, v2, 0).take(2),
        spec_decode_omit(symbols(v0, v1, v2, 0).take(2)) == joined(v0, v1, v2, 0).take(1),
{
    lemma_group_of_symbols(v0, v1, v2, 0);
    let s = symbols(v0, v1, v2, 0);
    assert(spec_decode_omit(s.take(3)) =~= joined(v0, v1, v2, 0).take(2));
    assert(spec_decode_omit(s.take(2)) =~= joined(v0, v1, v2, 0).take(1));
}

/// With padding, a group of four alphabet symbols followed by at least one more
/// group decodes to the three bytes its values join into.
pub proof fn law_decode_full_group_padded(v0: u8, v1: u8, v2: u8, v3: u8, rest: Seq<u8>)
    requires
        v0 < 64,
        v1 < 64,
        v2 < 64,
        v3 < 64,
        rest.len() >= 4,
    ensures
        spec_decode_padded(symbols(v0, v1, v2, v3) + rest) == joined(v0, v1, v2, v3)
            + spec_decode_padded(rest),
{
    let s = symbols(v0, v1, v2, v3);
    let t = s + rest;
    lemma_group_of_symbols(v0, v1, v2, v3);
    assert(t.skip(4) =~= rest);
    assert(t[0] == s[0] && t[1] == s[1] && t[2] == s[2] && t[3] == s[3]);
}

/// With padding, the last group decodes to three bytes when it has four
/// alphabet symbols, to the first two when it ends in one `=`, and to the
/// first one when it ends in `==`.
pub proof fn law_decode_last_group_padded(v0: u8, v1: u8, v2: u8, v3: u8)
    requires
        v0 < 64,
        v1 < 64,
        v2 < 64,
        v3 < 64,
    ensures
        spec_decode_padded(symbols(v0, v1, v2, v3)) == joined(v0, v1, v2, v3),
        spec_decode_padded(symbols(v0, v1, v2, v3).update(3, 61u8)) == joined(
            v0,
            v1,
            v2,
            v3,
        ).take(2),
        spec_decode_padded(symbols(v0, v1, v2, v3).update(2, 61u8).update(3, 61u8)) == joined(
            v0,
            v1,
            v2,
            v3,
        ).take(1),
{
    lemma_group_of_symbols(v0, v1, v2, v3);
    let s = symbols(v0, v1, v2, v3);
    let j = joined(v0, v1, v2, v3);
    assert(spec_decode_padded(s) == decode_group(s[0], s[1], s[2], s[3]));
    let s1 = s.update(3, 61u8);
    assert(s1[0] == s[0] && s1[1] == s[1] && s1[2] == s[2] && s1[3] == 61u8);
    assert(spec_decode_padded(s1) =~= j.take(2));
    let s2 = s.update(2, 61u8).update(3, 61u8);
    assert(s2[0] == s[0] && s2[1] == s[1] && s2[2] == 61u8);
    assert(spec_decode_padded(s2) =~= j.take(1));
}

/// The announced decoded length, on the input's length and last two bytes
/// alone: with padding, `None` unless the length is a multiple of four, else
/// three bytes per group less one per `=` among the last two bytes; without
/// padding, `None` when one symbol is left over, else three bytes per group and
/// one byte less than the symbols left over.
pub proof fn law_exact_len_rules(chars: Seq<u8>)
    ensures
        chars.len() % 4 != 0 ==> spec_decode_exact_len(chars, false) is None,
        chars.len() % 4 == 0 ==> spec_decode_exact_len(chars, false) == Some(
            (chars.len() / 4 * 3 - (if chars.len() >= 1 && chars[chars.len() - 1] == 61u8 {
                1int
            } else {
                0int
            }) - (if chars.len() >= 2 && chars[chars.len() - 2] == 61u8 {
                1int
            } else {
                0int
            })) as nat,
        ),
        chars.len() % 4 == 1 <==> spec_decode_exact_len(chars, true) is None,
        chars.len() % 4 != 1 ==> spec_decode_exact_len(chars, true) == Some(
            (chars.len() / 4 * 3 + (if chars.len() % 4 == 0 {
                0int
            } else {
                chars.len() % 4 - 1
            })) as nat,
        ),
{
}

/// The position of `c` in the alphabet; 0 for a byte outside it.
pub open spec fn alphabet_position(c: u8) -> u8 {
    if exists|i: int| 0 <= i < 64 && url_alphabet()[i] == c {
        (choose|i: int| 0 <= i < 64 && url_alphabet()[i] == c) as u8
    } else {
        0
    }
}

/// The model reads each byte as its position in the alphabet, and a byte
/// outside the alphabet as 0.
proof fn lemma_position(c: u8)
    ensures
        alphabet_position(c) < 64,
        alphabet_position(c) as int == value_of(c),
{
    crate::tables::lemma_value_symbol(c);
    if exists|i: int| 0 <= i < 64 && url_alphabet()[i] == c {
        let i = choose|i: int| 0 <= i < 64 && url_alphabet()[i] == c;
        lemma_alphabet(i);
        lemma_symbol_value(i);
    } else {
        if crate::spec::is_url_symbol(c) {
            lemma_alphabet(value_of(c));
            assert(url_alphabet()[value_of(c)] == c);
        }
    }
}

/// Any four bytes decode to the bytes that their alphabet positions join
/// into (a byte outside the alphabet counting as 0): for the decoder, with
/// whatever follows them.
proof fn lemma_group_of_bytes(c0: u8, c1: u8, c2: u8, c3: u8)
    ensures
        decode_group(c0, c1, c2, c3) == joined(
            alphabet_position(c0),
            alphabet_position(c1),
            alphabet_position(c2),
            alphabet_position(c3),
        ),
{
    lemma_position(c0);
    lemma_position(c1);
    lemma_position(c2);
    lemma_position(c3);
    lemma_joined(
        alphabet_position(c0),
        alphabet_position(c1),
        alphabet_position(c2),
        alphabet_position(c3),
    );
    assert(decode_group(c0, c1, c2, c3) =~= joined(
        alphabet_position(c0),
        alphabet_position(c1),
        alphabet_position(c2),
        alphabet_position(c3),
    ));
}

/// Without padding, any four bytes followed by anything decode to the bytes
/// their alphabet positions join into (a byte outside the alphabet reads as 0).
pub proof fn law_decode_any_group_unpadded(c0: u8, c1: u8, c2: u8, c3: u8, rest: Seq<u8>)
    ensures
        spec_decode_omit(seq![c0, c1, c2, c3] + rest) == joined(
            alphabet_position(c0),
            alphabet_position(c1),
            alphabet_position(c2),
            alphabet_position(c3),
        ) + spec_decode_omit(rest),
{
    let t = seq![c0, c1, c2, c3] + rest;
    lemma_group_of_bytes(c0, c1, c2, c3);
    assert(t.skip(4) =~= rest);
    assert(t[0] == c0 && t[1] == c1 && t[2] == c2 && t[3] == c3);
}

/// With padding, any four bytes followed by at least one more group decode to
/// the bytes their alphabet positions join into (`=` and every other byte
/// outside the alphabet read as 0 there).
pub proof fn law_decode_any_group_padded(c0: u8, c1: u8, c2: u8, c3: u8, rest: Seq<u8>)
    requires
        rest.len() >= 4,
    ensures
        spec_decode_padded(seq![c0, c1, c2, c3] + rest) == joined(
            alphabet_position(c0),
            alphabet_position(c1),
            alphabet_position(c2),
            alphabet_position(c3),
        ) + spec_decode_padded(rest),
{
    let t = seq![c0, c1, c2, c3] + rest;
    lemma_group_of_bytes(c0, c1, c2, c3);
    assert(t.skip(4) =~= rest);
    assert(t[0] == c0 && t[1] == c1 && t[2] == c2 && t[3] == c3);
}

} // verus!
