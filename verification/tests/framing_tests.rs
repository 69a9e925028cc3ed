use merkle_store::framing::{encode_header, parse_header};

fn header(s: &str) -> [u8; 16] {
    let mut h = [0u8; 16];
    h.copy_from_slice(s.as_bytes());
    h
}

#[test]
fn header_is_sixteen_upper_hex_digits() {
    assert_eq!(&encode_header(0), b"0000000000000000");
    assert_eq!(&encode_header(0x1a2b), b"0000000000001A2B");
    assert_eq!(&encode_header(u64::MAX), b"FFFFFFFFFFFFFFFF");
    assert_eq!(encode_header(300), header(&format!("{:016X}", 300)));
}

#[test]
fn header_round_trip() {
    for n in [0u64, 1, 15, 16, 255, 4096, 0xdead_beef, u64::MAX - 1, u64::MAX] {
        assert_eq!(parse_header(&encode_header(n)), Some(n));
    }
}

#[test]
fn header_accepts_lower_case_and_plus() {
    assert_eq!(parse_header(&header("00000000000000ff")), Some(255));
    assert_eq!(parse_header(&header("+00000000000001F")), Some(31));
}

#[test]
fn header_rejects_other_text() {
    assert_eq!(parse_header(&header("000000000000001G")), None);
    assert_eq!(parse_header(&header("-00000000000001F")), None);
    assert_eq!(parse_header(&header(" 00000000000001F")), None);
    assert_eq!(parse_header(&header("0+0000000000001F")), None);
    let mut bad = header("0000000000000001");
    bad[3] = 0xff;
    assert_eq!(parse_header(&bad), None);
}

#[test]
fn header_parse_agrees_with_std() {
    for s in ["0000000000000010", "+000000000000abc", "00000000000000zz", "ABCDEF0123456789"] {
        let std_value = u64::from_str_radix(s, 16).ok();
        assert_eq!(parse_header(&header(s)), std_value);
    }
}
