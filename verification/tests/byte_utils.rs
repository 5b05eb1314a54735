use tskv::byte_utils::{decode_be_bool, decode_be_i64, decode_be_u64};
use tskv::error::Error;

#[test]
fn decode_reads_the_most_significant_byte_first() {
    assert_eq!(decode_be_u64(&[0, 0, 0, 0, 0, 0, 1, 2]), Ok(258));
    assert_eq!(decode_be_u64(&[1, 0, 0, 0, 0, 0, 0, 0]), Ok(1 << 56));
    assert_eq!(decode_be_u64(&[0xff; 8]), Ok(u64::MAX));
    assert_eq!(decode_be_u64(&[0; 8]), Ok(0));
    assert_eq!(decode_be_i64(&[0xff; 8]), Ok(-1));
    assert_eq!(decode_be_i64(&[0x80, 0, 0, 0, 0, 0, 0, 0]), Ok(i64::MIN));
    assert_eq!(decode_be_i64(&[0x7f, 0xff, 0xff, 0xff, 0xff, 0xff, 0xff, 0xff]), Ok(i64::MAX));
    assert_eq!(decode_be_i64(&[0, 0, 0, 0, 0, 0, 0, 10]), Ok(10));
    for x in [0_u64, 1, 255, 256, 0xdead_beef, u64::MAX - 1] {
        assert_eq!(decode_be_u64(&x.to_be_bytes()), Ok(x));
        assert_eq!(decode_be_i64(&(x as i64).to_be_bytes()), Ok(x as i64));
    }
}

#[test]
fn decode_reads_the_leading_bytes_of_a_longer_buffer() {
    assert_eq!(decode_be_u64(&[0, 0, 0, 0, 0, 0, 0, 3, 9, 9]), Ok(3));
    assert_eq!(decode_be_bool(&[0, 1]), Ok(false));
    assert_eq!(decode_be_bool(&[1]), Ok(true));
    assert_eq!(decode_be_bool(&[2]), Ok(true));
}

#[test]
fn decode_refuses_a_short_buffer() {
    assert_eq!(decode_be_u64(&[1, 2, 3, 4, 5, 6, 7]), Err(Error::DecodeErr));
    assert_eq!(decode_be_i64(&[]), Err(Error::DecodeErr));
    assert_eq!(decode_be_bool(&[]), Err(Error::DecodeErr));
}
