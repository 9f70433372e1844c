use holiday_calendar::encoding::decode_holiday_source;
use holiday_calendar::holiday::{is_holiday, load_holidays};

#[test]
fn shift_jis_bytes_decode_to_text() {
    assert_eq!(decode_holiday_source(&[0x8c, 0xb3, 0x93, 0xfa]), "元日");
    assert_eq!(decode_holiday_source(b"2024/1/1,"), "2024/1/1,");
    assert_eq!(decode_holiday_source(&[]), "");
    assert_eq!(decode_holiday_source(&[0xb1]), "\u{ff71}");
}

#[test]
fn bytes_that_encode_nothing_become_replacement_characters() {
    assert_eq!(decode_holiday_source(&[b'a', 0xff, b'b']), "a\u{fffd}b");
    assert_eq!(decode_holiday_source(&[0x8c]), "\u{fffd}");
}

#[test]
fn a_byte_order_mark_overrides_the_encoding() {
    assert_eq!(decode_holiday_source(&[0xef, 0xbb, 0xbf, 0xe5, 0x85, 0x83]), "元");
    assert_eq!(decode_holiday_source(&[0xff, 0xfe, 0x43, 0x51]), "元");
}

#[test]
fn a_decoded_source_loads() {
    let mut bytes: Vec<u8> = Vec::new();
    bytes.extend_from_slice(&[0x8d, 0x91, 0x96, 0xaf, 0x82, 0xcc, 0x8f, 0x6a, 0x93, 0xfa]);
    bytes.extend_from_slice(b"\r\n1955/1/1,");
    bytes.extend_from_slice(&[0x8c, 0xb3, 0x93, 0xfa]);
    bytes.extend_from_slice(b"\r\n1955/1/15,");
    bytes.extend_from_slice(&[0x90, 0xac, 0x90, 0x6c, 0x82, 0xcc, 0x93, 0xfa]);
    bytes.extend_from_slice(b"\r\n");
    let text = decode_holiday_source(&bytes);
    let rows: Vec<String> = text.lines().map(|line| line.to_string()).collect();
    let holidays = load_holidays(&rows);
    assert_eq!(holidays.len(), 2);
    assert_eq!(is_holiday(&holidays, 1955, 1, 1), Some("元日".to_string()));
    assert_eq!(is_holiday(&holidays, 1955, 1, 15), Some("成人の日".to_string()));
}
