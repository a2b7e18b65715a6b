use b64_url::{
    b64_url_encode, b64_url_encode_with_config, unsafe_b64_url_decode,
    unsafe_b64_url_decode_with_config, B64Config, B64ConfigPadding,
};

fn omit_config() -> B64Config {
    B64Config {
        padding: B64ConfigPadding { omit: true },
    }
}

#[test]
fn empty() {
    let config = omit_config();
    let result_bytes = b64_url_encode_with_config(b"", &config);
    let result = String::from_utf8(result_bytes).unwrap();
    assert_eq!(result, "");
}

#[test]
fn f() {
    let config = omit_config();
    let result_bytes = b64_url_encode_with_config(b"f", &config);
    let result = String::from_utf8(result_bytes).unwrap();
    assert_eq!(result, "Zg");
}

#[test]
fn fo() {
    let config = omit_config();
    let result_bytes = b64_url_encode_with_config(b"fo", &config);
    let result = String::from_utf8(result_bytes).unwrap();
    assert_eq!(result, "Zm8");
}

#[test]
fn foo() {
    let config = omit_config();
    let result_bytes = b64_url_encode_with_config(b"foo", &config);
    let result = String::from_utf8(result_bytes).unwrap();
    assert_eq!(result, "Zm9v");
}

#[test]
fn foob() {
    let config = omit_config();
    let result_bytes = b64_url_encode_with_config(b"foob", &config);
    let result = String::from_utf8(result_bytes).unwrap();
    assert_eq!(result, "Zm9vYg");
}

#[test]
fn fooba() {
    let config = omit_config();
    let result_bytes = b64_url_encode_with_config(b"fooba", &config);
    let result = String::from_utf8(result_bytes).unwrap();
    assert_eq!(result, "Zm9vYmE");
}

#[test]
fn foobar() {
    let config = omit_config();
    let result_bytes = b64_url_encode_with_config(b"foobar", &config);
    let result = String::from_utf8(result_bytes).unwrap();
    assert_eq!(result, "Zm9vYmFy");
}

#[test]
fn b64_url_empty() {
    let result_bytes = b64_url_encode(b"");
    let result = String::from_utf8(result_bytes).unwrap();
    assert_eq!(result, "");
}

#[test]
fn b64_url_f() {
    let result_bytes = b64_url_encode(b"f");
    let result = String::from_utf8(result_bytes).unwrap();
    assert_eq!(result, "Zg==");
}

#[test]
fn b64_url_fo() {
    let result_bytes = b64_url_encode(b"fo");
    let result = String::from_utf8(result_bytes).unwrap();
    assert_eq!(result, "Zm8=");
}

#[test]
fn b64_url_foo() {
    let result_bytes = b64_url_encode(b"foo");
    let result = String::from_utf8(result_bytes).unwrap();
    assert_eq!(result, "Zm9v");
}

#[test]
fn b64_url_foob() {
    let result_bytes = b64_url_encode(b"foob");
    let result = String::from_utf8(result_bytes).unwrap();
    assert_eq!(result, "Zm9vYg==");
}

#[test]
fn b64_url_fooba() {
    let result_bytes = b64_url_encode(b"fooba");
    let result = String::from_utf8(result_bytes).unwrap();
    assert_eq!(result, "Zm9vYmE=");
}

#[test]
fn b64_url_foobar() {
    let result_bytes = b64_url_encode(b"foobar");
    let result = String::from_utf8(result_bytes).unwrap();
    assert_eq!(result, "Zm9vYmFy");
}

#[test]
fn decode_empty() {
    let result_bytes = unsafe_b64_url_decode(b"");
    let result = String::from_utf8(result_bytes).unwrap();
    assert_eq!(result, "");
}

#[test]
fn decode_f() {
    let result_bytes = unsafe_b64_url_decode(b"Zg==");
    let result = String::from_utf8(result_bytes).unwrap();
    assert_eq!(result, "f");
}

#[test]
fn decode_fo() {
    let result_bytes = unsafe_b64_url_decode(b"Zm8=");
    let result = String::from_utf8(result_bytes).unwrap();
    assert_eq!(result, "fo");
}

#[test]
fn decode_foo() {
    let result_bytes = unsafe_b64_url_decode(b"Zm9v");
    let result = String::from_utf8(result_bytes).unwrap();
    assert_eq!(result, "foo");
}

#[test]
fn decode_foob() {
    let result_bytes = unsafe_b64_url_decode(b"Zm9vYg==");
    let result = String::from_utf8(result_bytes).unwrap();
    assert_eq!(result, "foob");
}

#[test]
fn decode_fooba() {
    let result_bytes = unsafe_b64_url_decode(b"Zm9vYmE=");
    let result = String::from_utf8(result_bytes).unwrap();
    assert_eq!(result, "fooba");
}

#[test]
fn decode_foobar() {
    let result_bytes = unsafe_b64_url_decode(b"Zm9vYmFy");
    let result = String::from_utf8(result_bytes).unwrap();
    assert_eq!(result, "foobar");
}

#[test]
fn decode_with_config_omit_empty() {
    let config = omit_config();
    let result_bytes = unsafe_b64_url_decode_with_config(b"", &config);
    let result = String::from_utf8(result_bytes).unwrap();
    assert_eq!(result, "");
}

#[test]
fn decode_with_config_omit_f() {
    let config = omit_config();
    let result_bytes = unsafe_b64_url_decode_with_config(b"Zg", &config);
    let result = String::from_utf8(result_bytes).unwrap();
    assert_eq!(result, "f");
}

#[test]
fn decode_with_config_omit_fo() {
    let config = omit_config();
    let result_bytes = unsafe_b64_url_decode_with_config(b"Zm8", &config);
    let result = String::from_utf8(result_bytes).unwrap();
    assert_eq!(result, "fo");
}

#[test]
fn decode_with_config_omit_foo() {
    let config = omit_config();
    let result_bytes = unsafe_b64_url_decode_with_config(b"Zm9v", &config);
    let result = String::from_utf8(result_bytes).unwrap();
    assert_eq!(result, "foo");
}

#[test]
fn decode_with_config_omit_foob() {
    let config = omit_config();
    let result_bytes = unsafe_b64_url_decode_with_config(b"Zm9vYg", &config);
    let result = String::from_utf8(result_bytes).unwrap();
    assert_eq!(result, "foob");
}

#[test]
fn decode_with_config_omit_fooba() {
    let config = omit_config();
    let result_bytes = unsafe_b64_url_decode_with_config(b"Zm9vYmE", &config);
    let result = String::from_utf8(result_bytes).unwrap();
    assert_eq!(result, "fooba");
}

#[test]
fn decode_with_config_omit_foobar() {
    let config = omit_config();
    let result_bytes = unsafe_b64_url_decode_with_config(b"Zm9vYmFy", &config);
    let result = String::from_utf8(result_bytes).unwrap();
    assert_eq!(result, "foobar");
}
