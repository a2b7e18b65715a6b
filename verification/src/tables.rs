//! The alphabet and the lookup tables built from it.
use vstd::prelude::*;
use crate::spec::{is_url_symbol, symbol_of, value_of, B64_URL_PAD};

verus! {

/// Every 6-bit value has a symbol of the alphabet, and the symbol reads back
/// as the value.
pub proof fn lemma_symbol_value(v: int)
    requires
        0 <= v < 64,
    ensures
        is_url_symbol(symbol_of(v)),
        value_of(symbol_of(v)) == v,
        symbol_of(v) != B64_URL_PAD,
{
}

/// Every symbol of the alphabet has a 6-bit value, and the value gives the
/// symbol back; every byte reads as a 6-bit value.
pub proof fn lemma_value_symbol(c: u8)
    ensures
        0 <= value_of(c) < 64,
        is_url_symbol(c) ==> symbol_of(value_of(c)) == c,
        !is_url_symbol(c) ==> value_of(c) == 0,
{
}

/// The symbol for the 6-bit value `value` (the original's `B64_URL_ENCODE`).
pub fn b64_url_encode_symbol(value: u8) -> (symbol: u8)
    requires
        value < 64,
    ensures
        symbol == symbol_of(value as int),
{
    if value < 26 {
        value + 65
    } else if value < 52 {
        value - 26 + 97
    } else if value < 62 {
        value - 52 + 48
    } else if value == 62 {
        45
    } else {
        95
    }
}

/// The decode table: at each alphabet symbol its 6-bit value, 0 elsewhere.
pub fn build_b64_url_decode_table() -> (table: [u8; 256])
    ensures
        forall|c: u8| table@[c as int] == value_of(c),
{
    let mut table = [0u8; 256];
    let mut i: u8 = 0;
    while i < 64
        invariant
            i <= 64,
            table@.len() == 256,
            forall|c: u8|
                #![trigger table@[c as int]]
                table@[c as int] == (if is_url_symbol(c) && value_of(c) < i {
                    value_of(c)
                } else {
                    0
                }),
        decreases 64 - i,
    {
        let symbol = b64_url_encode_symbol(i);
        proof {
            lemma_symbol_value(i as int);
        }
        let ghost before = table@;
        table[symbol as usize] = i;
        assert forall|c: u8|
            #![trigger table@[c as int]]
            table@[c as int] == (if is_url_symbol(c) && value_of(c) < i + 1 {
                value_of(c)
            } else {
                0
            }) by {
            lemma_value_symbol(c);
            if c == symbol {
            } else {
                assert(table@[c as int] == before[c as int]);
                if is_url_symbol(c) && value_of(c) == i {
                    assert(symbol_of(value_of(c)) == c);
                }
            }
        }
        i = i + 1;
    }
    assert forall|c: u8| table@[c as int] == value_of(c) by {
        lemma_value_symbol(c);
    }
    table
}

/// The validity table: 1 at each alphabet symbol, 0 elsewhere.
pub fn build_b64_url_decode_valid_table() -> (table: [u8; 256])
    ensures
        forall|c: u8| table@[c as int] == (if is_url_symbol(c) { 1u8 } else { 0u8 }),
{
    let mut table = [0u8; 256];
    let mut i: u8 = 0;
    while i < 64
        invariant
            i <= 64,
            table@.len() == 256,
            forall|c: u8|
                #![trigger table@[c as int]]
                table@[c as int] == (if is_url_symbol(c) && value_of(c) < i {
                    1u8
                } else {
                    0u8
                }),
        decreases 64 - i,
    {
        let symbol = b64_url_encode_symbol(i);
        proof {
            lemma_symbol_value(i as int);
        }
        let ghost before = table@;
        table[symbol as usize] = 1;
        assert forall|c: u8|
            #![trigger table@[c as int]]
            table@[c as int] == (if is_url_symbol(c) && value_of(c) < i + 1 {
                1u8
            } else {
                0u8
            }) by {
            lemma_value_symbol(c);
            if c == symbol {
            } else {
                assert(table@[c as int] == before[c as int]);
                if is_url_symbol(c) && value_of(c) == i {
                    assert(symbol_of(value_of(c)) == c);
                }
            }
        }
        i = i + 1;
    }
    assert forall|c: u8| table@[c as int] == (if is_url_symbol(c) { 1u8 } else { 0u8 }) by {
        lemma_value_symbol(c);
    }
    table
}

/// The pair table: at each 12-bit value, the symbols of its two 6-bit halves,
/// high symbol in the high byte.
pub fn build_b64_url_encode_lut() -> (table: [u16; 4096])
    ensures
        forall|v: int|
            0 <= v < 4096 ==> #[trigger] table@[v] == symbol_of(v / 64) as int * 256
                + symbol_of(v % 64) as int,
{
    let mut table = [0u16; 4096];
    let mut i: usize = 0;
    while i < 4096
        invariant
            i <= 4096,
            table@.len() == 4096,
            forall|v: int|
                0 <= v < i ==> #[trigger] table@[v] == symbol_of(v / 64) as int * 256 + symbol_of(
                    v % 64,
                ) as int,
        decreases 4096 - i,
    {
        let value = i as u16;
        assert(((value >> 6) & 0x3f) == value / 64 && (value & 0x3f) == value % 64) by (bit_vector)
            requires
                value < 4096,
        ;
        let c0 = b64_url_encode_symbol(((value >> 6) & 0x3f) as u8) as u16;
        let c1 = b64_url_encode_symbol((value & 0x3f) as u8) as u16;
        assert(c0 < 256 && c1 < 256 ==> ((c0 << 8) | c1) == c0 * 256 + c1) by (bit_vector);
        table[i] = (c0 << 8) | c1;
        i = i + 1;
    }
    table
}

} // verus!
