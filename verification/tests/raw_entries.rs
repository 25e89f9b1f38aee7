use prometheus_client_php_mmap::error::{checked_add, MmapError};
use prometheus_client_php_mmap::raw_entry::RawEntry;

#[test]
fn roundtrip_entry() {
    let family = b"http_requests_total";
    let sample = b"http_requests_total";
    let labels = br#"{a="1"}"#;
    let value = 42.5f64;

    let total = RawEntry::calc_total_len(family.len(), sample.len(), labels.len()).unwrap();
    let mut buf = vec![0; total];
    let value_offset =
        RawEntry::save(&mut buf, family, sample, labels, value.to_bits()).unwrap();
    assert!(value_offset > 0);

    let parsed = RawEntry::from_slice(&buf).unwrap();
    assert_eq!(parsed.family_bytes(), family);
    assert_eq!(parsed.sample_bytes(), sample);
    assert_eq!(parsed.labels_bytes(), labels);
    assert_eq!(f64::from_bits(parsed.value()), value);
}

#[test]
fn an_entry_is_laid_out_field_by_field() {
    let mut buf = vec![0xAAu8; 34];
    let at = RawEntry::save(&mut buf, b"ab", b"c", b"", 7.0f64.to_bits()).unwrap();
    assert_eq!(at, 16);
    assert_eq!(&buf[0..4], &2u32.to_ne_bytes());
    assert_eq!(&buf[4..8], &1u32.to_ne_bytes());
    assert_eq!(&buf[8..12], &0u32.to_ne_bytes());
    assert_eq!(&buf[12..15], b"abc");
    assert_eq!(&buf[15..16], b" ");
    assert_eq!(&buf[16..24], &7.0f64.to_ne_bytes());
    assert_eq!(&buf[24..], &[0xAAu8; 10]);
    let parsed = RawEntry::from_slice(&buf).unwrap();
    assert_eq!(parsed.total_len(), 24);
}

#[test]
fn values_stand_at_multiples_of_eight() {
    assert_eq!(RawEntry::padding_len(0, 0, 0).unwrap(), 4);
    assert_eq!(RawEntry::padding_len(4, 0, 0).unwrap(), 0);
    assert_eq!(RawEntry::padding_len(1, 2, 2).unwrap(), 7);
    assert_eq!(RawEntry::calc_value_offset(0, 0, 0).unwrap(), 16);
    assert_eq!(RawEntry::calc_value_offset(4, 0, 0).unwrap(), 16);
    assert_eq!(RawEntry::calc_value_offset(1, 2, 2).unwrap(), 24);
    assert_eq!(RawEntry::calc_total_len(1, 2, 2).unwrap(), 32);
}

#[test]
fn too_few_bytes_for_the_lengths() {
    let err = RawEntry::from_slice(&[0u8; 11]).unwrap_err();
    assert_eq!(err, MmapError::OutOfBounds { offset: 12, len: 11 });
}

#[test]
fn too_few_bytes_for_the_entry() {
    let mut buf = vec![0u8; 23];
    buf[0..4].copy_from_slice(&3u32.to_ne_bytes());
    let err = RawEntry::from_slice(&buf).unwrap_err();
    assert_eq!(err, MmapError::OutOfBounds { offset: 24, len: 23 });
}

#[test]
fn no_room_for_an_entry() {
    let mut buf = vec![0u8; 20];
    let err = RawEntry::save(&mut buf, b"abc", b"", b"", 0).unwrap_err();
    assert_eq!(err, MmapError::EntryTooLarge { needed: 24, available: 20 });
    assert_eq!(buf, vec![0u8; 20]);
}

#[test]
fn names_longer_than_their_length_field() {
    if usize::BITS == 64 {
        let long = u32::MAX as usize + 1;
        assert_eq!(RawEntry::calc_total_len(long, 0, 0).unwrap_err(), MmapError::KeyTooLong);
        assert_eq!(RawEntry::calc_value_offset(0, long, 0).unwrap_err(), MmapError::KeyTooLong);
        assert_eq!(RawEntry::calc_value_offset(0, 0, long).unwrap_err(), MmapError::KeyTooLong);
        assert!(RawEntry::calc_total_len(long - 1, long - 1, long - 1).is_ok());
    }
}

#[test]
fn sizes_that_do_not_add_up() {
    assert_eq!(checked_add(1, 2).unwrap(), 3);
    assert_eq!(checked_add(usize::MAX, 0).unwrap(), usize::MAX);
    assert_eq!(checked_add(usize::MAX, 1).unwrap_err(), MmapError::Overflow);
    assert_eq!(RawEntry::padding_len(usize::MAX, 1, 0).unwrap_err(), MmapError::Overflow);
    assert_eq!(RawEntry::padding_len(usize::MAX - 11, 0, 0).unwrap_err(), MmapError::Overflow);
}
