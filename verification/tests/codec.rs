use ip_locator::{ip_to_string, string_to_ip, CodecError};

fn decode(s: &str) -> Result<u32, CodecError> {
    string_to_ip(s.to_string())
}

#[test]
fn decodes_zero() {
    assert_eq!(decode("0.0.0.0"), Ok(0));
}

#[test]
fn decodes_all_ones() {
    assert_eq!(decode("255.255.255.255"), Ok(4294967295));
}

#[test]
fn decodes_big_endian_octet_order() {
    assert_eq!(decode("1.0.0.0"), Ok(16777216));
    assert_eq!(decode("1.0.0.1"), Ok(16777217));
    assert_eq!(decode("0.0.0.1"), Ok(1));
    assert_eq!(decode("10.0.5.1"), Ok((10 << 24) | (5 << 8) | 1));
    assert_eq!(decode("72.134.69.1"), Ok((72 << 24) | (134 << 16) | (69 << 8) | 1));
}

#[test]
fn accepts_leading_zeros() {
    assert_eq!(decode("001.002.003.004"), Ok((1 << 24) | (2 << 16) | (3 << 8) | 4));
    assert_eq!(decode("0255.0.0.0"), Ok(255 << 24));
}

#[test]
fn rejects_octet_over_255() {
    assert_eq!(decode("256.0.0.0"), Err(CodecError::MalformedAddress));
    assert_eq!(decode("1.2.3.999"), Err(CodecError::MalformedAddress));
    assert_eq!(decode("1.2.3.4294967296"), Err(CodecError::MalformedAddress));
}

#[test]
fn rejects_non_numeric_segment() {
    assert_eq!(decode("a.b.c.d"), Err(CodecError::MalformedAddress));
    assert_eq!(decode("1.2.x.4"), Err(CodecError::MalformedAddress));
    assert_eq!(decode("+1.2.3.4"), Err(CodecError::MalformedAddress));
    assert_eq!(decode("1.2.3.-4"), Err(CodecError::MalformedAddress));
    assert_eq!(decode(" 1.2.3.4"), Err(CodecError::MalformedAddress));
    assert_eq!(decode("1.2.3.4 "), Err(CodecError::MalformedAddress));
}

#[test]
fn rejects_wrong_token_count() {
    assert_eq!(decode("1.2.3"), Err(CodecError::MalformedAddress));
    assert_eq!(decode("1.2.3.4.5"), Err(CodecError::MalformedAddress));
    assert_eq!(decode("1"), Err(CodecError::MalformedAddress));
    assert_eq!(decode(""), Err(CodecError::MalformedAddress));
    assert_eq!(decode("1..2.3"), Err(CodecError::MalformedAddress));
    assert_eq!(decode("1.2.3."), Err(CodecError::MalformedAddress));
    assert_eq!(decode(".1.2.3"), Err(CodecError::MalformedAddress));
}

#[test]
fn encodes_canonically() {
    assert_eq!(ip_to_string(0), "0.0.0.0");
    assert_eq!(ip_to_string(4294967295), "255.255.255.255");
    assert_eq!(ip_to_string(16777217), "1.0.0.1");
    assert_eq!(ip_to_string(1216605195), "72.131.236.11");
}

#[test]
fn round_trip_reproduces_the_value() {
    for s in [
        "0.0.0.0",
        "255.255.255.255",
        "1.0.0.1",
        "192.168.001.1",
        "010.020.030.040",
        "72.131.236.11",
    ] {
        let v = decode(s).unwrap();
        let re = ip_to_string(v);
        assert_eq!(decode(&re), Ok(v));
    }
}
