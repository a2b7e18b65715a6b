//! URL-safe base64 encoding and decoding (RFC 4648, section 5), with or
//! without `=` padding.
use vstd::prelude::*;

pub mod bitwise;
pub mod decode;
pub mod encode;
pub mod laws;
pub mod spec;
pub mod tables;

use crate::decode::{
    b64_url_decode_calculate_exact_length, lemma_decode_exact_len_bound,
    unsafe_b64_url_decode_with_omit_padding, unsafe_b64_url_decode_with_omit_padding_to_slice,
    unsafe_b64_url_decode_with_padding, unsafe_b64_url_decode_with_padding_to_slice,
};
use crate::encode::{
    b64_url_encode_calculate_destination_capacity, b64_url_encode_calculate_exact_length,
    b64_url_encode_with_config_to_slice, lemma_encode_len,
};
use crate::spec::{spec_decode, spec_decode_exact_len, spec_encode, spec_encoded_len};

verus! {

/// Whether the `=` padding is written when encoding and expected when decoding.
pub struct B64ConfigPadding {
    pub omit: bool,
}

/// Encoding and decoding options.
pub struct B64Config {
    pub padding: B64ConfigPadding,
}

impl Default for B64ConfigPadding {
    /// Padding is written and expected.
    fn default() -> (padding: Self)
        ensures
            !padding.omit,
    {
        B64ConfigPadding { omit: false }
    }
}

impl Default for B64Config {
    /// Padding is written and expected.
    fn default() -> (config: Self)
        ensures
            !config.padding.omit,
    {
        B64Config { padding: B64ConfigPadding::default() }
    }
}

/// Encodes `bytes` into a new vector.
pub fn b64_url_encode_with_config(bytes: &[u8], config: &B64Config) -> (encoded: Vec<u8>)
    requires
        bytes@.len() / 3 * 4 + 4 <= usize::MAX,
    ensures
        encoded@ == spec_encode(bytes@, config.padding.omit),
{
    let length = bytes.len();
    proof {
        lemma_encode_len(bytes@, config.padding.omit);
    }
    let mut vec: Vec<u8> = vec![0u8; b64_url_encode_calculate_destination_capacity(length)];
    let written = b64_url_encode_with_config_to_slice(bytes, vec.as_mut_slice(), config);
    assert(vec@.subrange(0, written as int) =~= spec_encode(bytes@, config.padding.omit));
    vec.truncate(written);
    vec
}

/// Encodes `bytes` at the start of `out`, if it has room: returns the number of
/// symbols written, or `None` (and `out` untouched) when `out` is too short.
pub fn b64_url_encode_into_with_config(
    bytes: &[u8],
    out: &mut [u8],
    config: &B64Config,
) -> (written: Option<usize>)
    requires
        spec_encoded_len(bytes@.len(), config.padding.omit) <= usize::MAX,
    ensures
        written is None <==> old(out)@.len() < spec_encoded_len(
            bytes@.len(),
            config.padding.omit,
        ),
        written is None ==> final(out)@ == old(out)@,
        written matches Some(n) ==> {
            &&& n == spec_encode(bytes@, config.padding.omit).len()
            &&& final(out)@ == spec_encode(bytes@, config.padding.omit) + old(out)@.skip(n as int)
        },
{
    proof {
        lemma_encode_len(bytes@, config.padding.omit);
    }
    let needed = b64_url_encode_calculate_exact_length(bytes.len(), config.padding.omit);
    if out.len() < needed {
        return None;
    }
    let written = b64_url_encode_with_config_to_slice(bytes, out, config);
    Some(written)
}

/// Encodes `bytes` with padding into a new vector.
pub fn b64_url_encode(bytes: &[u8]) -> (encoded: Vec<u8>)
    requires
        bytes@.len() / 3 * 4 + 4 <= usize::MAX,
    ensures
        encoded@ == spec_encode(bytes@, false),
{
    b64_url_encode_with_config(bytes, &B64Config::default())
}

/// Encodes `bytes` with padding at the start of `out`, if it has room.
pub fn b64_url_encode_into(bytes: &[u8], out: &mut [u8]) -> (written: Option<usize>)
    requires
        spec_encoded_len(bytes@.len(), false) <= usize::MAX,
    ensures
        written is None <==> old(out)@.len() < spec_encoded_len(bytes@.len(), false),
        written is None ==> final(out)@ == old(out)@,
        written matches Some(n) ==> {
            &&& n == spec_encode(bytes@, false).len()
            &&& final(out)@ == spec_encode(bytes@, false) + old(out)@.skip(n as int)
        },
{
    b64_url_encode_into_with_config(bytes, out, &B64Config::default())
}

/// Decodes padded `bytes` into a new vector. The input is not checked: a
/// byte outside the alphabet reads as 0 (see `spec_decode_padded`).
pub fn unsafe_b64_url_decode(bytes: &[u8]) -> (decoded: Vec<u8>)
    ensures
        decoded@ == spec_decode(bytes@, false),
{
    unsafe_b64_url_decode_with_config(bytes, &B64Config::default())
}

/// Decodes `bytes` into a new vector. The input is not checked.
pub fn unsafe_b64_url_decode_with_config(bytes: &[u8], config: &B64Config) -> (decoded: Vec<u8>)
    ensures
        decoded@ == spec_decode(bytes@, config.padding.omit),
{
    if config.padding.omit {
        return unsafe_b64_url_decode_with_omit_padding(bytes);
    }
    unsafe_b64_url_decode_with_padding(bytes)
}

/// Decodes `bytes` at the start of `out`. Returns `None`, with `out` untouched,
/// when the length of `bytes` cannot be that of an encoding or `out` is shorter
/// than the length that `b64_url_decode_calculate_exact_length` announces;
/// otherwise the number of bytes written. The input is not checked.
pub fn unsafe_b64_url_decode_into_with_config(
    bytes: &[u8],
    out: &mut [u8],
    config: &B64Config,
) -> (written: Option<usize>)
    ensures
        written is None <==> (spec_decode_exact_len(bytes@, config.padding.omit) is None
            || old(out)@.len() < spec_decode_exact_len(bytes@, config.padding.omit).unwrap()),
        written is None ==> final(out)@ == old(out)@,
        written matches Some(n) ==> {
            &&& n == spec_decode(bytes@, config.padding.omit).len()
            &&& final(out)@ == spec_decode(bytes@, config.padding.omit) + old(out)@.skip(n as int)
        },
{
    let needed = match b64_url_decode_calculate_exact_length(bytes, config.padding.omit) {
        Some(n) => n,
        None => return None,
    };
    if out.len() < needed {
        return None;
    }
    proof {
        lemma_decode_exact_len_bound(bytes@, config.padding.omit);
    }
    let written = if config.padding.omit {
        unsafe_b64_url_decode_with_omit_padding_to_slice(bytes, out)
    } else {
        unsafe_b64_url_decode_with_padding_to_slice(bytes, out)
    };
    Some(written)
}

/// Decodes padded `bytes` at the start of `out`, as
/// `unsafe_b64_url_decode_into_with_config` does.
pub fn unsafe_b64_url_decode_into(bytes: &[u8], out: &mut [u8]) -> (written: Option<usize>)
    ensures
        written is None <==> (spec_decode_exact_len(bytes@, false) is None || old(out)@.len()
            < spec_decode_exact_len(bytes@, false).unwrap()),
        written is None ==> final(out)@ == old(out)@,
        written matches Some(n) ==> {
            &&& n == spec_decode(bytes@, false).len()
            &&& final(out)@ == spec_decode(bytes@, false) + old(out)@.skip(n as int)
        },
{
    unsafe_b64_url_decode_into_with_config(bytes, out, &B64Config::default())
}

} // verus!
