use sooboost::model::error::{LayoutError, ModelError};
use sooboost::model::format::{
    fnv1a64, push_u16, push_u32, push_u64, push_u8, read_len_str16, read_len_str32, Cursor,
};

#[test]
fn push_primitives_are_little_endian() {
    let mut out: Vec<u8> = Vec::new();
    push_u8(&mut out, 0xab);
    push_u16(&mut out, 0x1234);
    push_u32(&mut out, 0xdead_beef);
    push_u64(&mut out, 0x0102_0304_0506_0708);
    assert_eq!(
        out,
        vec![0xab, 0x34, 0x12, 0xef, 0xbe, 0xad, 0xde, 8, 7, 6, 5, 4, 3, 2, 1]
    );
}

#[test]
fn fnv1a64_known_values() {
    assert_eq!(fnv1a64(b""), 0xcbf2_9ce4_8422_2325);
    assert_eq!(fnv1a64(b"a"), 0xaf63_dc4c_8601_ec8c);
}

#[test]
fn length_prefixed_strings_read_back_and_place_the_cursor() {
    let bytes = [3u8, 0, b'a', b'b', b'c', 9];
    let mut c = Cursor::new(&bytes);
    assert_eq!(read_len_str16(&mut c).unwrap(), "abc");
    assert_eq!(c.position(), 5);

    let short_prefix = [3u8];
    let mut c = Cursor::new(&short_prefix);
    assert!(matches!(read_len_str16(&mut c), Err(ModelError::Truncated)));
    assert_eq!(c.position(), 0);

    let short_body = [4u8, 0, b'a', b'b'];
    let mut c = Cursor::new(&short_body);
    assert!(matches!(read_len_str16(&mut c), Err(ModelError::Truncated)));
    assert_eq!(c.position(), 2);

    let not_utf8 = [2u8, 0, 0xff, 0xfe, 7];
    let mut c = Cursor::new(&not_utf8);
    assert!(matches!(read_len_str16(&mut c), Err(ModelError::InvalidLayout(LayoutError::LossNameNotUtf8))));
    assert_eq!(c.position(), 4);

    let meta = [2u8, 0, 0, 0, 0xc3, 0xa9];
    let mut c = Cursor::new(&meta);
    assert_eq!(read_len_str32(&mut c).unwrap(), "é");
    assert_eq!(c.position(), 6);

    let bad_meta = [1u8, 0, 0, 0, 0x80];
    let mut c = Cursor::new(&bad_meta);
    assert!(matches!(read_len_str32(&mut c), Err(ModelError::InvalidLayout(LayoutError::MetadataNotUtf8))));
    assert_eq!(c.position(), 5);

    let short_meta = [9u8, 0, 0, 0, b'x'];
    let mut c = Cursor::new(&short_meta);
    assert!(matches!(read_len_str32(&mut c), Err(ModelError::Truncated)));
    assert_eq!(c.position(), 4);
}
