//! What holds of the encoder and the decoders together.
use vstd::prelude::*;
use crate::decode::{lemma_decode_omit_len, lemma_decode_padded_len};
use crate::encode::lemma_encode_len;
use crate::spec::{
    decode_group, decode_last_group, decoded_byte0, decoded_byte1, decoded_byte2, encode_group,
    encode_tail1, encode_tail2, is_canonical, is_canonical_omit, is_canonical_padded,
    is_url_symbol, spec_decode, spec_decode_exact_len, spec_decode_omit, spec_decode_padded,
    spec_encode, spec_encoded_len, symbol_of, value_of, B64_URL_PAD,
};
use crate::tables::{lemma_symbol_value, lemma_value_symbol};

verus! {

/// Splitting three bytes into four 6-bit values and joining them again gives
/// the bytes back.
proof fn lemma_bytes_to_values(b0: u8, b1: u8, b2: u8)
    ensures
        decoded_byte0(symbol_of(b0 as int / 4), symbol_of((b0 as int % 4) * 16 + b1 as int / 16))
            == b0,
        decoded_byte1(
            symbol_of((b0 as int % 4) * 16 + b1 as int / 16),
            symbol_of((b1 as int % 16) * 4 + b2 as int / 64),
        ) == b1,
        decoded_byte2(symbol_of((b1 as int % 16) * 4 + b2 as int / 64), symbol_of(b2 as int % 64))
            == b2,
{
    let v0 = b0 as int / 4;
    let v1 = (b0 as int % 4) * 16 + b1 as int / 16;
    let v2 = (b1 as int % 16) * 4 + b2 as int / 64;
    let v3 = b2 as int % 64;
    lemma_symbol_value(v0);
    lemma_symbol_value(v1);
    lemma_symbol_value(v2);
    lemma_symbol_value(v3);
}

/// Joining four 6-bit values into three bytes and splitting them again gives
/// the values back.
proof fn lemma_values_to_bytes(c0: u8, c1: u8, c2: u8, c3: u8)
    ensures
        ({
            let d0 = decoded_byte0(c0, c1);
            let d1 = decoded_byte1(c1, c2);
            let d2 = decoded_byte2(c2, c3);
            &&& d0 as int / 4 == value_of(c0)
            &&& (d0 as int % 4) * 16 + d1 as int / 16 == value_of(c1)
            &&& (d1 as int % 16) * 4 + d2 as int / 64 == value_of(c2)
            &&& d2 as int % 64 == value_of(c3)
            &&& (d0 as int % 4) * 16 == value_of(c1) - value_of(c1) % 16
            &&& (d1 as int % 16) * 4 == value_of(c2) - value_of(c2) % 4
        }),
{
    lemma_value_symbol(c0);
    lemma_value_symbol(c1);
    lemma_value_symbol(c2);
    lemma_value_symbol(c3);
}

/// Encoding `a + b`, where the length of `a` is a multiple of three, is
/// encoding `a` and `b` apart and joining the results: the encoder works group
/// by group, so input cut at a group boundary can be encoded piece by piece.
pub proof fn law_encode_concat(a: Seq<u8>, b: Seq<u8>, omit_padding: bool)
    requires
        a.len() % 3 == 0,
    ensures
        spec_encode(a + b, omit_padding) == spec_encode(a, omit_padding) + spec_encode(
            b,
            omit_padding,
        ),
    decreases a.len(),
{
    if a.len() == 0 {
        assert(a + b =~= b);
        assert(spec_encode(a, omit_padding) =~= Seq::<u8>::empty());
        assert(Seq::<u8>::empty() + spec_encode(b, omit_padding) =~= spec_encode(b, omit_padding));
    } else {
        law_encode_concat(a.skip(3), b, omit_padding);
        assert((a + b).skip(3) =~= a.skip(3) + b);
        assert((a + b)[0] == a[0] && (a + b)[1] == a[1] && (a + b)[2] == a[2]);
        let g = encode_group(a[0], a[1], a[2]);
        assert(g + (spec_encode(a.skip(3), omit_padding) + spec_encode(b, omit_padding)) =~= (g
            + spec_encode(a.skip(3), omit_padding)) + spec_encode(b, omit_padding));
    }
}

/// A nonempty padded encoding has at least four symbols.
proof fn lemma_padded_encoding_len(bytes: Seq<u8>)
    requires
        bytes.len() > 0,
    ensures
        spec_encode(bytes, false).len() >= 4,
{
    lemma_encode_len(bytes, false);
}

/// Decoding the encoding of any bytes gives the bytes back, with padding and
/// without.
pub proof fn law_decode_encode(bytes: Seq<u8>, omit_padding: bool)
    ensures
        spec_decode(spec_encode(bytes, omit_padding), omit_padding) == bytes,
    decreases bytes.len(),
{
    let e = spec_encode(bytes, omit_padding);
    if bytes.len() >= 3 {
        let b0 = bytes[0];
        let b1 = bytes[1];
        let b2 = bytes[2];
        let rest = bytes.skip(3);
        let g = encode_group(b0, b1, b2);
        let er = spec_encode(rest, omit_padding);
        law_decode_encode(rest, omit_padding);
        lemma_bytes_to_values(b0, b1, b2);
        lemma_symbol_value(b0 as int / 4);
        lemma_symbol_value((b0 as int % 4) * 16 + b1 as int / 16);
        lemma_symbol_value((b1 as int % 16) * 4 + b2 as int / 64);
        lemma_symbol_value(b2 as int % 64);
        assert(e == g + er);
        assert(e.skip(4) =~= er);
        assert(e[0] == g[0] && e[1] == g[1] && e[2] == g[2] && e[3] == g[3]);
        assert(decode_group(e[0], e[1], e[2], e[3]) =~= seq![b0, b1, b2]);
        if omit_padding {
            assert(spec_decode_omit(e) == decode_group(e[0], e[1], e[2], e[3])
                + spec_decode_omit(e.skip(4)));
        } else {
            if rest.len() > 0 {
                lemma_padded_encoding_len(rest);
                assert(spec_decode_padded(e) == decode_group(e[0], e[1], e[2], e[3])
                    + spec_decode_padded(e.skip(4)));
            } else {
                assert(er =~= Seq::<u8>::empty());
                assert(spec_decode_padded(er) =~= Seq::<u8>::empty());
                assert(spec_decode_padded(e) == decode_last_group(e[0], e[1], e[2], e[3]));
            }
        }
        assert(seq![b0, b1, b2] + rest =~= bytes);
    } else if bytes.len() == 2 {
        let b0 = bytes[0];
        let b1 = bytes[1];
        lemma_bytes_to_values(b0, b1, 0);
        lemma_symbol_value(b0 as int / 4);
        lemma_symbol_value((b0 as int % 4) * 16 + b1 as int / 16);
        lemma_symbol_value((b1 as int % 16) * 4);
        assert((b1 as int % 16) * 4 + 0u8 as int / 64 == (b1 as int % 16) * 4);
        assert(e == encode_tail2(b0, b1, omit_padding));
        if omit_padding {
            assert(spec_decode_omit(e) =~= seq![b0, b1]);
        } else {
            assert(spec_decode_padded(e) =~= seq![b0, b1]);
        }
        assert(seq![b0, b1] =~= bytes);
    } else if bytes.len() == 1 {
        let b0 = bytes[0];
        lemma_bytes_to_values(b0, 0, 0);
        lemma_symbol_value(b0 as int / 4);
        lemma_symbol_value((b0 as int % 4) * 16);
        assert((b0 as int % 4) * 16 + 0u8 as int / 16 == (b0 as int % 4) * 16);
        assert(e == encode_tail1(b0, omit_padding));
        if omit_padding {
            assert(spec_decode_omit(e) =~= seq![b0]);
        } else {
            assert(spec_decode_padded(e) =~= seq![b0]);
        }
        assert(seq![b0] =~= bytes);
    } else {
        assert(bytes =~= Seq::<u8>::empty());
        assert(spec_decode(e, omit_padding) =~= Seq::<u8>::empty());
    }
}

/// A canonical unpadded text is the encoding of its decoding.
proof fn lemma_encode_decode_omit(chars: Seq<u8>)
    requires
        is_canonical_omit(chars),
    ensures
        spec_encode(spec_decode_omit(chars), true) == chars,
    decreases chars.len(),
{
    let n = chars.len();
    if n >= 4 {
        let rest = chars.skip(4);
        assert forall|i: int| 0 <= i < rest.len() implies #[trigger] is_url_symbol(rest[i]) by {
            assert(rest[i] == chars[i + 4]);
            assert(is_url_symbol(chars[i + 4]));
        }
        assert(rest.len() >= 1 ==> rest[rest.len() - 1] == chars[n - 1]);
        lemma_encode_decode_omit(rest);
        let (c0, c1, c2, c3) = (chars[0], chars[1], chars[2], chars[3]);
        assert(is_url_symbol(c0) && is_url_symbol(c1) && is_url_symbol(c2) && is_url_symbol(c3));
        lemma_values_to_bytes(c0, c1, c2, c3);
        lemma_value_symbol(c0);
        lemma_value_symbol(c1);
        lemma_value_symbol(c2);
        lemma_value_symbol(c3);
        let d = decode_group(c0, c1, c2, c3);
        let dr = spec_decode_omit(rest);
        assert(spec_decode_omit(chars) == d + dr);
        assert((d + dr).skip(3) =~= dr);
        assert((d + dr)[0] == d[0] && (d + dr)[1] == d[1] && (d + dr)[2] == d[2]);
        assert(encode_group(d[0], d[1], d[2]) =~= chars.take(4));
        assert(chars =~= chars.take(4) + rest);
    } else if n == 3 {
        let (c0, c1, c2) = (chars[0], chars[1], chars[2]);
        assert(is_url_symbol(c0) && is_url_symbol(c1) && is_url_symbol(c2));
        lemma_values_to_bytes(c0, c1, c2, c2);
        lemma_value_symbol(c0);
        lemma_value_symbol(c1);
        lemma_value_symbol(c2);
        let d0 = decoded_byte0(c0, c1);
        let d1 = decoded_byte1(c1, c2);
        assert(spec_decode_omit(chars) =~= seq![d0, d1]);
        assert(encode_tail2(d0, d1, true) =~= chars);
    } else if n == 2 {
        let (c0, c1) = (chars[0], chars[1]);
        assert(is_url_symbol(c0) && is_url_symbol(c1));
        lemma_values_to_bytes(c0, c1, c1, c1);
        lemma_value_symbol(c0);
        lemma_value_symbol(c1);
        let d0 = decoded_byte0(c0, c1);
        assert(spec_decode_omit(chars) =~= seq![d0]);
        assert(encode_tail1(d0, true) =~= chars);
    } else {
        assert(chars =~= Seq::<u8>::empty());
        assert(spec_decode_omit(chars) =~= Seq::<u8>::empty());
    }
}

/// A canonical padded text is the encoding of its decoding.
proof fn lemma_encode_decode_padded(chars: Seq<u8>)
    requires
        is_canonical_padded(chars),
    ensures
        spec_encode(spec_decode_padded(chars), false) == chars,
    decreases chars.len(),
{
    let n = chars.len();
    if n >= 8 {
        let rest = chars.skip(4);
        assert forall|i: int| 0 <= i < rest.len() - 2 implies #[trigger] is_url_symbol(rest[i]) by {
            assert(rest[i] == chars[i + 4]);
            assert(is_url_symbol(chars[i + 4]));
        }
        assert(rest[rest.len() - 1] == chars[n - 1]);
        assert(rest[rest.len() - 2] == chars[n - 2]);
        assert(rest[rest.len() - 3] == chars[n - 3]);
        lemma_encode_decode_padded(rest);
        let (c0, c1, c2, c3) = (chars[0], chars[1], chars[2], chars[3]);
        assert(is_url_symbol(c0) && is_url_symbol(c1) && is_url_symbol(c2) && is_url_symbol(c3));
        lemma_values_to_bytes(c0, c1, c2, c3);
        lemma_value_symbol(c0);
        lemma_value_symbol(c1);
        lemma_value_symbol(c2);
        lemma_value_symbol(c3);
        let d = decode_group(c0, c1, c2, c3);
        let dr = spec_decode_padded(rest);
        assert(spec_decode_padded(chars) == d + dr);
        assert((d + dr).skip(3) =~= dr);
        assert((d + dr)[0] == d[0] && (d + dr)[1] == d[1] && (d + dr)[2] == d[2]);
        assert(encode_group(d[0], d[1], d[2]) =~= chars.take(4));
        assert(chars =~= chars.take(4) + rest);
    } else if n == 4 {
        let (c0, c1, c2, c3) = (chars[0], chars[1], chars[2], chars[3]);
        assert(is_url_symbol(c0) && is_url_symbol(c1));
        lemma_values_to_bytes(c0, c1, c2, c3);
        lemma_value_symbol(c0);
        lemma_value_symbol(c1);
        lemma_value_symbol(c2);
        lemma_value_symbol(c3);
        let d0 = decoded_byte0(c0, c1);
        let d1 = decoded_byte1(c1, c2);
        let d2 = decoded_byte2(c2, c3);
        if is_url_symbol(c2) && is_url_symbol(c3) {
            assert(spec_decode_padded(chars) =~= seq![d0, d1, d2]);
            let e = seq![d0, d1, d2];
            assert(e.skip(3) =~= Seq::<u8>::empty());
            assert(spec_encode(e, false) =~= encode_group(d0, d1, d2) + spec_encode(
                e.skip(3),
                false,
            ));
            assert(encode_group(d0, d1, d2) =~= chars);
        } else if is_url_symbol(c2) && c3 == B64_URL_PAD {
            assert(spec_decode_padded(chars) =~= seq![d0, d1]);
            assert(encode_tail2(d0, d1, false) =~= chars);
        } else {
            assert(c2 == B64_URL_PAD && c3 == B64_URL_PAD);
            assert(spec_decode_padded(chars) =~= seq![d0]);
            assert(encode_tail1(d0, false) =~= chars);
        }
    } else {
        assert(chars =~= Seq::<u8>::empty());
        assert(spec_decode_padded(chars) =~= Seq::<u8>::empty());
    }
}

/// Encoding the decoding of a canonical text gives the text back: together
/// with `law_decode_encode` and `law_encode_is_canonical`, encoding is a
/// one-to-one map from all byte strings onto the canonical texts, and decoding
/// is its inverse there.
pub proof fn law_encode_decode(chars: Seq<u8>, omit_padding: bool)
    requires
        is_canonical(chars, omit_padding),
    ensures
        spec_encode(spec_decode(chars, omit_padding), omit_padding) == chars,
{
    if omit_padding {
        lemma_encode_decode_omit(chars);
    } else {
        lemma_encode_decode_padded(chars);
    }
}

/// Every encoding without padding is canonical.
proof fn lemma_encode_canonical_omit(bytes: Seq<u8>)
    ensures
        is_canonical_omit(spec_encode(bytes, true)),
    decreases bytes.len(),
{
    let e = spec_encode(bytes, true);
    if bytes.len() >= 3 {
        let (b0, b1, b2) = (bytes[0], bytes[1], bytes[2]);
        let g = encode_group(b0, b1, b2);
        let er = spec_encode(bytes.skip(3), true);
        lemma_encode_canonical_omit(bytes.skip(3));
        lemma_symbol_value(b0 as int / 4);
        lemma_symbol_value((b0 as int % 4) * 16 + b1 as int / 16);
        lemma_symbol_value((b1 as int % 16) * 4 + b2 as int / 64);
        lemma_symbol_value(b2 as int % 64);
        assert(e == g + er);
        assert forall|i: int| 0 <= i < e.len() implies #[trigger] is_url_symbol(e[i]) by {
            if i >= 4 {
                assert(e[i] == er[i - 4]);
                assert(is_url_symbol(er[i - 4]));
            }
        }
        assert(er.len() >= 1 ==> e[e.len() - 1] == er[er.len() - 1]);
    } else if bytes.len() == 2 {
        let (b0, b1) = (bytes[0], bytes[1]);
        lemma_symbol_value(b0 as int / 4);
        lemma_symbol_value((b0 as int % 4) * 16 + b1 as int / 16);
        lemma_symbol_value((b1 as int % 16) * 4);
        assert(e == encode_tail2(b0, b1, true));
    } else if bytes.len() == 1 {
        let b0 = bytes[0];
        lemma_symbol_value(b0 as int / 4);
        lemma_symbol_value((b0 as int % 4) * 16);
        assert(e == encode_tail1(b0, true));
    }
}

/// Every padded encoding is canonical.
proof fn lemma_encode_canonical_padded(bytes: Seq<u8>)
    ensures
        is_canonical_padded(spec_encode(bytes, false)),
    decreases bytes.len(),
{
    let e = spec_encode(bytes, false);
    lemma_encode_len(bytes, false);
    if bytes.len() >= 3 {
        let (b0, b1, b2) = (bytes[0], bytes[1], bytes[2]);
        let g = encode_group(b0, b1, b2);
        let er = spec_encode(bytes.skip(3), false);
        lemma_encode_canonical_padded(bytes.skip(3));
        lemma_encode_len(bytes.skip(3), false);
        lemma_symbol_value(b0 as int / 4);
        lemma_symbol_value((b0 as int % 4) * 16 + b1 as int / 16);
        lemma_symbol_value((b1 as int % 16) * 4 + b2 as int / 64);
        lemma_symbol_value(b2 as int % 64);
        assert(e == g + er);
        assert forall|i: int| 0 <= i < e.len() - 2 implies #[trigger] is_url_symbol(e[i]) by {
            if i >= 4 {
                assert(e[i] == er[i - 4]);
                assert(is_url_symbol(er[i - 4]));
            }
        }
        if er.len() >= 4 {
            assert(e[e.len() - 1] == er[er.len() - 1]);
            assert(e[e.len() - 2] == er[er.len() - 2]);
            assert(e[e.len() - 3] == er[er.len() - 3]);
        }
    } else if bytes.len() == 2 {
        let (b0, b1) = (bytes[0], bytes[1]);
        lemma_symbol_value(b0 as int / 4);
        lemma_symbol_value((b0 as int % 4) * 16 + b1 as int / 16);
        lemma_symbol_value((b1 as int % 16) * 4);
        assert(e == encode_tail2(b0, b1, false));
    } else if bytes.len() == 1 {
        let b0 = bytes[0];
        lemma_symbol_value(b0 as int / 4);
        lemma_symbol_value((b0 as int % 4) * 16);
        assert(e == encode_tail1(b0, false));
    }
}

/// Every encoding is canonical: only alphabet symbols (and `=` only to close
/// the last group of a padded encoding), with zero bits past the last byte.
pub proof fn law_encode_is_canonical(bytes: Seq<u8>, omit_padding: bool)
    ensures
        is_canonical(spec_encode(bytes, omit_padding), omit_padding),
{
    if omit_padding {
        lemma_encode_canonical_omit(bytes);
    } else {
        lemma_encode_canonical_padded(bytes);
    }
}

/// An encoding without padding holds only the 64 URL-safe symbols, so it can
/// stand in a URL or a file name as it is.
pub proof fn law_unpadded_encoding_is_url_safe(bytes: Seq<u8>)
    ensures
        forall|i: int|
            0 <= i < spec_encode(bytes, true).len() ==> #[trigger] is_url_symbol(
                spec_encode(bytes, true)[i],
            ),
{
    lemma_encode_canonical_omit(bytes);
}

/// For a canonical text, the length that `b64_url_decode_calculate_exact_length`
/// announces is the length of its decoding.
pub proof fn law_exact_len_of_canonical(chars: Seq<u8>, omit_padding: bool)
    requires
        is_canonical(chars, omit_padding),
    ensures
        spec_decode_exact_len(chars, omit_padding) == Some(
            spec_decode(chars, omit_padding).len(),
        ),
{
    lemma_decode_omit_len(chars);
    lemma_decode_padded_len(chars);
    if !omit_padding && chars.len() >= 4 {
        let n = chars.len();
        assert(is_url_symbol(chars[n - 2]) ==> chars[n - 2] != B64_URL_PAD);
        assert(is_url_symbol(chars[n - 1]) ==> chars[n - 1] != B64_URL_PAD);
    }
}

/// The exact decoded length announced for the encoding of `bytes` is the
/// length of `bytes`.
pub proof fn law_exact_len_of_encoding(bytes: Seq<u8>, omit_padding: bool)
    ensures
        spec_decode_exact_len(spec_encode(bytes, omit_padding), omit_padding) == Some(bytes.len()),
{
    law_encode_is_canonical(bytes, omit_padding);
    law_exact_len_of_canonical(spec_encode(bytes, omit_padding), omit_padding);
    law_decode_encode(bytes, omit_padding);
}

/// The padding symbols that complete an unpadded encoding of `n` bytes.
pub open spec fn padding_for(n: nat) -> Seq<u8> {
    Seq::new(if n % 3 == 0 { 0nat } else { (3 - n % 3) as nat }, |i: int| B64_URL_PAD)
}

/// The padded encoding is the unpadded one followed by one `=` for a final
/// group of two bytes, two for a final group of one byte, none otherwise.
pub proof fn law_padding(bytes: Seq<u8>)
    ensures
        spec_encode(bytes, false) == spec_encode(bytes, true) + padding_for(bytes.len()),
        spec_encoded_len(bytes.len(), false) % 4 == 0,
    decreases bytes.len(),
{
    if bytes.len() >= 3 {
        law_padding(bytes.skip(3));
        let g = encode_group(bytes[0], bytes[1], bytes[2]);
        assert(padding_for(bytes.len()) =~= padding_for(bytes.skip(3).len()));
        assert(g + (spec_encode(bytes.skip(3), true) + padding_for(bytes.len())) =~= (g
            + spec_encode(bytes.skip(3), true)) + padding_for(bytes.len()));
    } else if bytes.len() == 2 {
        assert(encode_tail2(bytes[0], bytes[1], false) =~= encode_tail2(bytes[0], bytes[1], true)
            + padding_for(2));
    } else if bytes.len() == 1 {
        assert(encode_tail1(bytes[0], false) =~= encode_tail1(bytes[0], true) + padding_for(1));
    } else {
        assert(padding_for(0) =~= Seq::<u8>::empty());
        assert(spec_encode(bytes, true) + padding_for(0) =~= spec_encode(bytes, true));
    }
}

} // verus!
