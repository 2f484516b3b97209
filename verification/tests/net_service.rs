use rconn::crypto::RCipher;
use rconn::frame::decode_header_size;
use rconn::net_service::{
    custom_data_reader, custom_data_size, header_reader, header_size_allowed, header_size_reader,
    DefaultHeader, ReadProgress,
};

#[test]
fn announced_custom_data_size() {
    assert_eq!(custom_data_size(0), 0);
    assert_eq!(custom_data_size(1), 16);
    assert_eq!(custom_data_size(15), 16);
    assert_eq!(custom_data_size(16), 32);
    assert_eq!(custom_data_size(17), 32);
}

#[test]
fn announced_size_matches_encrypted_length() {
    let cipher = RCipher::new(b"QWERTYUIOPASDFGH", "").unwrap();
    for len in [1usize, 5, 15, 16, 17, 40] {
        let data = vec![3u8; len];
        assert_eq!(cipher.encript_data(&data).len(), custom_data_size(len));
    }
}

#[test]
fn header_new_sets_announced_size() {
    let h = DefaultHeader::new(String::from("resp"), 20, serde_json::Value::Null);
    assert_eq!(h.act, "resp");
    assert_eq!(h.custom_data_size, 32);
    assert_eq!(h.data, serde_json::Value::Null);
}

#[test]
fn header_size_limit() {
    assert!(header_size_allowed(10, 10));
    assert!(!header_size_allowed(11, 10));
    assert!(header_size_allowed(0, 0));
}

#[test]
fn custom_data_reader_refuses_too_much() {
    let h = DefaultHeader::new(String::from("act"), 100, serde_json::Value::Null);
    assert!(custom_data_reader(&h, 111).is_none());
    let mut r = custom_data_reader(&h, 112).unwrap();
    assert_eq!(r.next_read_len(), 112);
    assert_eq!(r.accept(&[1u8; 100]), ReadProgress::Progress);
    assert_eq!(r.accept(&[2u8; 12]), ReadProgress::Complete);
    let bytes = r.into_bytes();
    assert_eq!(bytes.len(), 112);
    assert_eq!(&bytes[100..], &[2u8; 12]);
}

#[test]
fn custom_data_reads_in_chunks_of_4096() {
    let mut h = DefaultHeader::new(String::from("act"), 0, serde_json::Value::Null);
    h.custom_data_size = 5000;
    let mut r = custom_data_reader(&h, 10_000).unwrap();
    assert_eq!(r.next_read_len(), 4096);
    assert_eq!(r.accept(&vec![1u8; 4096]), ReadProgress::Progress);
    assert_eq!(r.next_read_len(), 904);
    assert_eq!(r.accept(&[]), ReadProgress::Stalled);
    assert!(!r.is_complete());
    assert_eq!(r.accept(&vec![2u8; 904]), ReadProgress::Complete);
    assert!(r.is_complete());
    assert_eq!(r.next_read_len(), 0);
}

#[test]
fn header_size_reader_gathers_four_bytes() {
    let mut r = header_size_reader();
    assert_eq!(r.next_read_len(), 4);
    assert_eq!(r.accept(&[0, 0]), ReadProgress::Progress);
    assert_eq!(r.next_read_len(), 2);
    assert_eq!(r.accept(&[1, 2]), ReadProgress::Complete);
    assert_eq!(r.into_bytes(), vec![0, 0, 1, 2]);
}

#[test]
fn empty_header_is_complete_at_once() {
    let r = header_reader(0);
    assert!(r.is_complete());
    let mut r = header_reader(3);
    assert_eq!(r.next_read_len(), 3);
    assert_eq!(r.accept(&[]), ReadProgress::Stalled);
    assert_eq!(r.accept(b"abc"), ReadProgress::Complete);
}

#[test]
fn chunking_does_not_change_what_is_read() {
    let bytes = [0x00u8, 0x01, 0x02, 0x03];
    let mut one = header_size_reader();
    assert_eq!(one.accept(&bytes), ReadProgress::Complete);
    let mut many = header_size_reader();
    for b in bytes.iter() {
        let n = many.next_read_len();
        assert!(n >= 1);
        many.accept(std::slice::from_ref(b));
    }
    assert!(many.is_complete());
    let (x, y) = (one.into_bytes(), many.into_bytes());
    assert_eq!(x, y);
    assert_eq!(decode_header_size(&x), 0x0001_0203);
}
