//! The mathematical model of URL-safe base64 (RFC 4648, section 5).
//!
//! Encoding works on groups of three bytes, each giving four symbols of the
//! alphabet `A-Z a-z 0-9 - _`; a final group of one or two bytes gives two or
//! three symbols, followed by `=` padding up to four unless padding is omitted.
//! Decoding reads groups of four symbols back into three bytes.  The decoders
//! of this crate do not validate their input: a byte outside the alphabet is
//! read as the value 0, as the original lookup table does.
use vstd::prelude::*;

verus! {

/// The padding symbol `=`.
pub const B64_URL_PAD: u8 = 0x3d;

/// Whether `c` is one of the 64 symbols of the URL-safe alphabet.
pub open spec fn is_url_symbol(c: u8) -> bool {
    ||| 65 <= c <= 90
    ||| 97 <= c <= 122
    ||| 48 <= c <= 57
    ||| c == 45
    ||| c == 95
}

/// The symbol that stands for the 6-bit value `v` (`0 <= v < 64`).
pub open spec fn symbol_of(v: int) -> u8 {
    if v < 26 {
        (v + 65) as u8
    } else if v < 52 {
        (v - 26 + 97) as u8
    } else if v < 62 {
        (v - 52 + 48) as u8
    } else if v == 62 {
        45u8
    } else {
        95u8
    }
}

/// The 6-bit value of symbol `c`; a byte outside the alphabet reads as 0.
pub open spec fn value_of(c: u8) -> int {
    if 65 <= c <= 90 {
        c - 65
    } else if 97 <= c <= 122 {
        c - 97 + 26
    } else if 48 <= c <= 57 {
        c - 48 + 52
    } else if c == 45 {
        62
    } else if c == 95 {
        63
    } else {
        0
    }
}

/// The four symbols of a full group of three bytes.
pub open spec fn encode_group(b0: u8, b1: u8, b2: u8) -> Seq<u8> {
    seq![
        symbol_of(b0 as int / 4),
        symbol_of((b0 as int % 4) * 16 + b1 / 16),
        symbol_of((b1 as int % 16) * 4 + b2 / 64),
        symbol_of(b2 as int % 64),
    ]
}

/// The symbols of a final group of two bytes.
pub open spec fn encode_tail2(b0: u8, b1: u8, omit_padding: bool) -> Seq<u8> {
    let s = seq![
        symbol_of(b0 as int / 4),
        symbol_of((b0 as int % 4) * 16 + b1 / 16),
        symbol_of((b1 as int % 16) * 4),
    ];
    if omit_padding {
        s
    } else {
        s.push(B64_URL_PAD)
    }
}

/// The symbols of a final group of one byte.
pub open spec fn encode_tail1(b0: u8, omit_padding: bool) -> Seq<u8> {
    let s = seq![symbol_of(b0 as int / 4), symbol_of((b0 as int % 4) * 16)];
    if omit_padding {
        s
    } else {
        s + seq![B64_URL_PAD, B64_URL_PAD]
    }
}

/// The URL-safe base64 encoding of `bytes`.
pub open spec fn spec_encode(bytes: Seq<u8>, omit_padding: bool) -> Seq<u8>
    decreases bytes.len(),
{
    if bytes.len() >= 3 {
        encode_group(bytes[0], bytes[1], bytes[2]) + spec_encode(bytes.skip(3), omit_padding)
    } else if bytes.len() == 2 {
        encode_tail2(bytes[0], bytes[1], omit_padding)
    } else if bytes.len() == 1 {
        encode_tail1(bytes[0], omit_padding)
    } else {
        Seq::empty()
    }
}

/// The length of the encoding of `n` bytes.
pub open spec fn spec_encoded_len(n: nat, omit_padding: bool) -> nat {
    let full = (n / 3) * 4;
    if n % 3 == 0 {
        full
    } else if omit_padding {
        full + n % 3 + 1
    } else {
        full + 4
    }
}

/// First byte of a group, from its first two symbols.
pub open spec fn decoded_byte0(c0: u8, c1: u8) -> u8 {
    (value_of(c0) * 4 + value_of(c1) / 16) as u8
}

/// Second byte of a group, from its second and third symbols.
pub open spec fn decoded_byte1(c1: u8, c2: u8) -> u8 {
    ((value_of(c1) % 16) * 16 + value_of(c2) / 4) as u8
}

/// Third byte of a group, from its third and fourth symbols.
pub open spec fn decoded_byte2(c2: u8, c3: u8) -> u8 {
    ((value_of(c2) % 4) * 64 + value_of(c3)) as u8
}

/// The three bytes of a full group of four symbols.
pub open spec fn decode_group(c0: u8, c1: u8, c2: u8, c3: u8) -> Seq<u8> {
    seq![decoded_byte0(c0, c1), decoded_byte1(c1, c2), decoded_byte2(c2, c3)]
}

/// Decoding without padding: groups of four, then a final group of three
/// symbols gives two bytes, of two symbols one byte; a single symbol left over
/// gives nothing.
pub open spec fn spec_decode_omit(chars: Seq<u8>) -> Seq<u8>
    decreases chars.len(),
{
    if chars.len() >= 4 {
        decode_group(chars[0], chars[1], chars[2], chars[3]) + spec_decode_omit(chars.skip(4))
    } else if chars.len() == 3 {
        seq![decoded_byte0(chars[0], chars[1]), decoded_byte1(chars[1], chars[2])]
    } else if chars.len() == 2 {
        seq![decoded_byte0(chars[0], chars[1])]
    } else {
        Seq::empty()
    }
}

/// The last group of a padded input: `=` in third place gives one byte, `=` in
/// fourth place (only) gives two, otherwise three.
pub open spec fn decode_last_group(c0: u8, c1: u8, c2: u8, c3: u8) -> Seq<u8> {
    if c2 == B64_URL_PAD {
        seq![decoded_byte0(c0, c1)]
    } else if c3 == B64_URL_PAD {
        seq![decoded_byte0(c0, c1), decoded_byte1(c1, c2)]
    } else {
        decode_group(c0, c1, c2, c3)
    }
}

/// Decoding with padding: every group of four but the last is a full group;
/// the last one is read by `decode_last_group`; fewer than four symbols left at
/// the end are ignored.
pub open spec fn spec_decode_padded(chars: Seq<u8>) -> Seq<u8>
    decreases chars.len(),
{
    if chars.len() < 4 {
        Seq::empty()
    } else if chars.len() < 8 {
        decode_last_group(chars[0], chars[1], chars[2], chars[3])
    } else {
        decode_group(chars[0], chars[1], chars[2], chars[3]) + spec_decode_padded(chars.skip(4))
    }
}

/// Decoding under either configuration.
pub open spec fn spec_decode(chars: Seq<u8>, omit_padding: bool) -> Seq<u8> {
    if omit_padding {
        spec_decode_omit(chars)
    } else {
        spec_decode_padded(chars)
    }
}

/// The length that `b64_url_decode_calculate_exact_length` announces.
pub open spec fn spec_decode_exact_len(chars: Seq<u8>, omit_padding: bool) -> Option<nat> {
    let n = chars.len();
    if omit_padding {
        if n % 4 == 1 {
            None
        } else if n % 4 == 0 {
            Some((n / 4) * 3)
        } else {
            Some((n / 4) * 3 + (n % 4 - 1) as nat)
        }
    } else if n % 4 != 0 {
        None
    } else {
        let pad: nat = (if n >= 1 && chars[n - 1] == B64_URL_PAD { 1nat } else { 0nat }) + (
        if n >= 2 && chars[n - 2] == B64_URL_PAD {
            1nat
        } else {
            0nat
        });
        Some(((n / 4) * 3 - pad) as nat)
    }
}

/// A text without padding that the encoder can produce: no single symbol left
/// over, only alphabet symbols, and the bits that the last symbol carries past
/// the last byte are zero.
pub open spec fn is_canonical_omit(chars: Seq<u8>) -> bool {
    let n = chars.len();
    &&& n % 4 != 1
    &&& forall|i: int| 0 <= i < n ==> #[trigger] is_url_symbol(chars[i])
    &&& n % 4 == 2 ==> value_of(chars[n - 1]) % 16 == 0
    &&& n % 4 == 3 ==> value_of(chars[n - 1]) % 4 == 0
}

/// A padded text that the encoder can produce: whole groups of four, only
/// alphabet symbols but for one or two `=` that end the last group, and zero
/// bits past the last byte.
pub open spec fn is_canonical_padded(chars: Seq<u8>) -> bool {
    let n = chars.len();
    &&& n % 4 == 0
    &&& forall|i: int| 0 <= i < n - 2 ==> #[trigger] is_url_symbol(chars[i])
    &&& n >= 4 ==> {
        ||| is_url_symbol(chars[n - 2]) && is_url_symbol(chars[n - 1])
        ||| is_url_symbol(chars[n - 2]) && chars[n - 1] == B64_URL_PAD && value_of(chars[n - 2])
            % 4 == 0
        ||| chars[n - 2] == B64_URL_PAD && chars[n - 1] == B64_URL_PAD && value_of(chars[n - 3])
            % 16 == 0
    }
}

/// Canonical under either configuration.
pub open spec fn is_canonical(chars: Seq<u8>, omit_padding: bool) -> bool {
    if omit_padding {
        is_canonical_omit(chars)
    } else {
        is_canonical_padded(chars)
    }
}

} // verus!
