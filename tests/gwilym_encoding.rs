use agb::gwilym::{gwilym_decode, DecodeError};

const ALPHABET: &[u8] = b"0123456789=ABCDEFGHIJKLMNOPQRSTUVWXYZ_abcdefghijklmnopqrstuvwxyz";

fn decode_all(input: &str) -> Vec<u32> {
    let mut it = gwilym_decode(input).unwrap();
    it.collect_vec()
}

#[test]
fn should_correctly_decode_16s() {
    assert_eq!(
        &decode_all("2QI65Q69306Kv1"),
        &[0x0800_16d3, 0x0800_315b, 0x0800_3243, 0x0800_0195]
    );
}

fn encode_16(input: u16) -> [u8; 3] {
    let input = input as usize;
    [
        ALPHABET[input >> (16 - 5)],
        ALPHABET[(input >> (16 - 10)) & 0b11111],
        ALPHABET[input & 0b111111],
    ]
}

fn encode_32(input: u32) -> [u8; 6] {
    let input = input as usize;
    let output_lower_16 = encode_16(input as u16);
    let input_upper_16 = input >> 16;
    [
        ALPHABET[(input_upper_16 >> (16 - 5)) | (1 << 5)],
        ALPHABET[(input_upper_16 >> (16 - 10)) & 0b11111],
        ALPHABET[input_upper_16 & 0b111111],
        output_lower_16[0],
        output_lower_16[1],
        output_lower_16[2],
    ]
}

#[test]
fn should_correctly_decode_16s_and_32s() {
    let trace: &[u32] = &[
        0x0300_2990,
        0x0800_3289,
        0x0500_2993,
        0x3829_2910,
        0xffff_ffff,
        0x0000_0000,
    ];

    let mut result = String::new();
    for &ip in trace {
        if ip & 0xFFFF_0000 == 0x0800_0000 {
            let encoded = encode_16(ip as u16);
            result.push_str(std::str::from_utf8(&encoded).unwrap());
        } else {
            let encoded = encode_32(ip);
            result.push_str(std::str::from_utf8(&encoded).unwrap());
        }
    }

    result.push_str("v1");

    assert_eq!(&decode_all(&result), trace);
}

#[test]
fn should_strip_the_agbrsdev_prefix() {
    assert_eq!(
        &decode_all("https://agbrs.dev/crash#2QI65Q69306Kv1"),
        &[0x0800_16d3, 0x0800_315b, 0x0800_3243, 0x0800_0195]
    );
}

#[test]
fn decode_rejects_missing_version() {
    assert_eq!(gwilym_decode("2QI65Q").err(), Some(DecodeError::MissingVersion));
}

#[test]
fn decode_rejects_other_versions() {
    assert_eq!(gwilym_decode("2QIv2").err(), Some(DecodeError::UnsupportedVersion));
    assert_eq!(gwilym_decode("2QIv").err(), Some(DecodeError::UnsupportedVersion));
    assert_eq!(gwilym_decode("2QIv11").err(), Some(DecodeError::UnsupportedVersion));
}

#[test]
fn decode_rejects_ragged_payload() {
    assert_eq!(gwilym_decode("2Qv1").err(), Some(DecodeError::BadLength));
}

#[test]
fn decode_uses_the_last_v() {
    // 'v' is itself a symbol of the alphabet: only the last one marks the version
    let mut it = gwilym_decode("00vv1").unwrap();
    assert_eq!(it.collect_vec(), vec![0x0800_003b]);
}

#[test]
fn decode_empty_payload() {
    let mut it = gwilym_decode("v1").unwrap();
    assert_eq!(it.next(), None);
    assert_eq!(it.collect_vec(), Vec::<u32>::new());
}

#[test]
fn decode_single_symbols() {
    // '=' is 10, 'Z' is 36, '_' is 37, 'z' is 63
    assert_eq!(decode_all("00=v1"), vec![0x0800_000a]);
    assert_eq!(decode_all("00Zv1"), vec![0x0800_0024]);
    assert_eq!(decode_all("00_v1"), vec![0x0800_0025]);
    assert_eq!(decode_all("00zv1"), vec![0x0800_003f]);
}

#[test]
fn decode_upper_half_at_the_end_has_zero_low_half() {
    // an upper chunk with nothing after it
    let encoded = encode_32(0x1234_5678);
    let s = format!("{}v1", std::str::from_utf8(&encoded[..3]).unwrap());
    assert_eq!(decode_all(&s), vec![0x1234_0000]);
}
