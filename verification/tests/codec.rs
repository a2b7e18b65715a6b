use b64_url::decode::{
    b64_url_decode_calculate_exact_length, unsafe_b64_url_decode_with_omit_padding,
    unsafe_b64_url_decode_with_padding,
};
use b64_url::encode::{
    b64_url_encode_calculate_destination_capacity, b64_url_encode_calculate_exact_length,
    b64_url_encode_with_config_to_slice,
};
use b64_url::tables::{
    b64_url_encode_symbol, build_b64_url_decode_table, build_b64_url_decode_valid_table,
    build_b64_url_encode_lut,
};
use b64_url::{
    b64_url_encode, b64_url_encode_into, b64_url_encode_into_with_config,
    b64_url_encode_with_config, unsafe_b64_url_decode, unsafe_b64_url_decode_into,
    unsafe_b64_url_decode_into_with_config, unsafe_b64_url_decode_with_config, B64Config,
    B64ConfigPadding,
};

const ALPHABET: &[u8; 64] = b"ABCDEFGHIJKLMNOPQRSTUVWXYZabcdefghijklmnopqrstuvwxyz0123456789-_";

fn config(omit: bool) -> B64Config {
    B64Config {
        padding: B64ConfigPadding { omit },
    }
}

fn sample(len: usize) -> Vec<u8> {
    (0..len).map(|i| (i * 37 + 11) as u8).collect()
}

#[test]
fn default_config_pads() {
    let config = B64Config::default();
    assert!(!config.padding.omit);
    assert!(!B64ConfigPadding::default().omit);
}

#[test]
fn url_safe_symbols_replace_plus_and_slash() {
    assert_eq!(b64_url_encode(&[0xfb, 0xff]), b"-_8=".to_vec());
    assert_eq!(b64_url_encode_with_config(&[0xfb, 0xff], &config(true)), b"-_8".to_vec());
    assert_eq!(b64_url_encode(&[0xff, 0xff, 0xff]), b"____".to_vec());
    assert_eq!(b64_url_encode(&[0xf8, 0x00, 0x3e]), b"-AA-".to_vec());
}

#[test]
fn unpadded_encoding_holds_only_alphabet_symbols() {
    for len in 0..40 {
        let encoded = b64_url_encode_with_config(&sample(len), &config(true));
        assert!(encoded.iter().all(|c| ALPHABET.contains(c)));
    }
}

#[test]
fn round_trip_padded_and_unpadded() {
    for len in 0..70 {
        let bytes = sample(len);
        for omit in [false, true] {
            let encoded = b64_url_encode_with_config(&bytes, &config(omit));
            let decoded = unsafe_b64_url_decode_with_config(&encoded, &config(omit));
            assert_eq!(decoded, bytes);
        }
    }
}

#[test]
fn canonical_text_round_trip() {
    for text in [&b"Zm9vYmFy"[..], b"Zg==", b"Zm8=", b"-_8=", b"AAAA"] {
        let decoded = unsafe_b64_url_decode(text);
        assert_eq!(b64_url_encode(&decoded), text.to_vec());
    }
    for text in [&b"Zm9vYmFy"[..], b"Zg", b"Zm8", b"-_8"] {
        let decoded = unsafe_b64_url_decode_with_config(text, &config(true));
        assert_eq!(b64_url_encode_with_config(&decoded, &config(true)), text.to_vec());
    }
}

#[test]
fn encoding_splits_at_group_boundaries() {
    let bytes = sample(50);
    for cut in [0, 3, 12, 30, 48] {
        for omit in [false, true] {
            let whole = b64_url_encode_with_config(&bytes, &config(omit));
            let mut parts = b64_url_encode_with_config(&bytes[..cut], &config(omit));
            parts.extend(b64_url_encode_with_config(&bytes[cut..], &config(omit)));
            assert_eq!(whole, parts);
        }
    }
}

#[test]
fn padded_is_unpadded_plus_equals_signs() {
    for len in 0..20 {
        let bytes = sample(len);
        let padded = b64_url_encode(&bytes);
        let mut unpadded = b64_url_encode_with_config(&bytes, &config(true));
        while unpadded.len() % 4 != 0 {
            unpadded.push(b'=');
        }
        assert_eq!(padded, unpadded);
        assert_eq!(padded.len() % 4, 0);
    }
}

#[test]
fn encode_into_fits_exactly() {
    let mut out = [b'#'; 10];
    assert_eq!(b64_url_encode_into(b"fooba", &mut out), Some(8));
    assert_eq!(&out, b"Zm9vYmE=##");
    let mut out = [b'#'; 7];
    assert_eq!(b64_url_encode_into_with_config(b"fooba", &mut out, &config(true)), Some(7));
    assert_eq!(&out, b"Zm9vYmE");
}

#[test]
fn encode_into_too_short_leaves_out_untouched() {
    let mut out = [b'#'; 7];
    assert_eq!(b64_url_encode_into(b"fooba", &mut out), None);
    assert_eq!(&out, b"#######");
    let mut out = [b'#'; 6];
    assert_eq!(b64_url_encode_into_with_config(b"fooba", &mut out, &config(true)), None);
    assert_eq!(&out, b"######");
}

#[test]
fn decode_into_writes_and_reports_length() {
    let mut out = [0u8; 8];
    assert_eq!(unsafe_b64_url_decode_into(b"Zm9vYmE=", &mut out), Some(5));
    assert_eq!(&out, b"fooba\0\0\0");
    let mut out = [7u8; 5];
    assert_eq!(unsafe_b64_url_decode_into_with_config(b"Zm9vYmE", &mut out, &config(true)), Some(5));
    assert_eq!(&out, b"fooba");
}

#[test]
fn decode_into_rejects_impossible_lengths() {
    let mut out = [9u8; 16];
    assert_eq!(unsafe_b64_url_decode_into(b"Zm9vYmE", &mut out), None);
    assert_eq!(unsafe_b64_url_decode_into_with_config(b"Zm9vY", &mut out, &config(true)), None);
    assert_eq!(out, [9u8; 16]);
}

#[test]
fn decode_into_rejects_short_output() {
    let mut out = [9u8; 4];
    assert_eq!(unsafe_b64_url_decode_into(b"Zm9vYmE=", &mut out), None);
    assert_eq!(unsafe_b64_url_decode_into_with_config(b"Zm9vYmE", &mut out, &config(true)), None);
    assert_eq!(out, [9u8; 4]);
}

#[test]
fn decode_reads_unknown_bytes_as_zero() {
    assert_eq!(unsafe_b64_url_decode(b"Zm9*"), unsafe_b64_url_decode(b"Zm9A"));
    assert_eq!(unsafe_b64_url_decode(b"Zm9A"), vec![0x66, 0x6f, 0x40]);
}

#[test]
fn padded_decode_reads_padding_in_last_group_only() {
    assert_eq!(unsafe_b64_url_decode(b"Zg=x"), b"f".to_vec());
    assert_eq!(unsafe_b64_url_decode(b"Zm8=Zm9v"), vec![0x66, 0x6f, 0x00, 0x66, 0x6f, 0x6f]);
    assert_eq!(unsafe_b64_url_decode(b"Zm9vYg==xy"), b"foob".to_vec());
    assert_eq!(unsafe_b64_url_decode(b"Zm9"), Vec::<u8>::new());
}

#[test]
fn unpadded_decode_ignores_a_lone_final_symbol() {
    assert_eq!(unsafe_b64_url_decode_with_config(b"Zm9vY", &config(true)), b"foo".to_vec());
    assert_eq!(unsafe_b64_url_decode_with_omit_padding(b"Zm9vYg"), b"foob".to_vec());
    assert_eq!(unsafe_b64_url_decode_with_padding(b"Zm9vYg=="), b"foob".to_vec());
}

#[test]
fn exact_decode_length() {
    assert_eq!(b64_url_decode_calculate_exact_length(b"", false), Some(0));
    assert_eq!(b64_url_decode_calculate_exact_length(b"Zg==", false), Some(1));
    assert_eq!(b64_url_decode_calculate_exact_length(b"Zm8=", false), Some(2));
    assert_eq!(b64_url_decode_calculate_exact_length(b"Zm9vYmFy", false), Some(6));
    assert_eq!(b64_url_decode_calculate_exact_length(b"Zm9vY", false), None);
    assert_eq!(b64_url_decode_calculate_exact_length(b"Zm9vY", true), None);
    assert_eq!(b64_url_decode_calculate_exact_length(b"Zm9vYg", true), Some(4));
    assert_eq!(b64_url_decode_calculate_exact_length(b"Zm9vYmE", true), Some(5));
    assert_eq!(b64_url_decode_calculate_exact_length(b"Zm9vYmFy", true), Some(6));
}

#[test]
fn exact_decode_length_of_encodings() {
    for len in 0..30 {
        let bytes = sample(len);
        for omit in [false, true] {
            let encoded = b64_url_encode_with_config(&bytes, &config(omit));
            assert_eq!(b64_url_decode_calculate_exact_length(&encoded, omit), Some(len));
        }
    }
}

#[test]
fn encode_lengths() {
    assert_eq!(b64_url_encode_calculate_destination_capacity(0), 4);
    assert_eq!(b64_url_encode_calculate_destination_capacity(5), 8);
    assert_eq!(b64_url_encode_calculate_exact_length(5, false), 8);
    assert_eq!(b64_url_encode_calculate_exact_length(5, true), 7);
    assert_eq!(b64_url_encode_calculate_exact_length(4, true), 6);
    assert_eq!(b64_url_encode_calculate_exact_length(6, true), 8);
    assert_eq!(b64_url_encode_calculate_exact_length(0, false), 0);
}

#[test]
fn encode_to_slice_keeps_the_rest() {
    let mut out = [b'.'; 12];
    let written = b64_url_encode_with_config_to_slice(b"foob", &mut out, &config(false));
    assert_eq!(written, 8);
    assert_eq!(&out, b"Zm9vYg==....");
}

#[test]
fn alphabet_and_tables() {
    for v in 0..64u8 {
        assert_eq!(b64_url_encode_symbol(v), ALPHABET[v as usize]);
    }
    let decode = build_b64_url_decode_table();
    let valid = build_b64_url_decode_valid_table();
    for c in 0..=255u8 {
        match ALPHABET.iter().position(|&a| a == c) {
            Some(i) => {
                assert_eq!(decode[c as usize] as usize, i);
                assert_eq!(valid[c as usize], 1);
            },
            None => {
                assert_eq!(decode[c as usize], 0);
                assert_eq!(valid[c as usize], 0);
            },
        }
    }
    let lut = build_b64_url_encode_lut();
    assert_eq!(lut[0], u16::from(b'A') << 8 | u16::from(b'A'));
    assert_eq!(lut[4095], u16::from(b'_') << 8 | u16::from(b'_'));
    assert_eq!(lut[65], u16::from(b'B') << 8 | u16::from(b'B'));
}
