use prometheus_client_php_mmap::error::MmapError;
use prometheus_client_php_mmap::mmap_file::{
    ensure_capacity, initial_size, load_value, page_aligned_size, MmapMetricStore,
    FILE_FORMAT_VERSION, HEADER_SIZE,
};
use prometheus_client_php_mmap::publish::SharedMap;
use prometheus_client_php_mmap::raw_entry::RawEntry;
use prometheus_client_php_mmap::scan::{claimed_used, scan_entries, ScanStop};

const PAGE_SIZE: usize = 4096;

/// A metric file held in memory.
struct MemFile {
    map: Vec<u8>,
    store: MmapMetricStore,
}

fn plus(a: u64, b: u64) -> u64 {
    (f64::from_bits(a) + f64::from_bits(b)).to_bits()
}

impl MemFile {
    fn open(mut map: Vec<u8>) -> Result<MemFile, MmapError> {
        if let Some(len) = initial_size(map.len(), PAGE_SIZE)? {
            map.resize(len, 0);
        }
        let store = MmapMetricStore::open(&mut map)?;
        Ok(MemFile { map, store })
    }

    fn make_room(&mut self, family: &str, sample: &str, labels: &str) -> Result<(), MmapError> {
        if let Some(needed) = self.store.room_needed(&self.map, family, sample, labels)? {
            if let Some(len) = ensure_capacity(self.map.len(), needed, PAGE_SIZE)? {
                self.map.resize(len, 0);
            }
        }
        Ok(())
    }

    fn get(&self, family: &str, sample: &str, labels: &str) -> Result<f64, MmapError> {
        self.store.get(&self.map, family, sample, labels).map(f64::from_bits)
    }

    fn increment(&mut self, family: &str, sample: &str, labels: &str, by: f64) -> Result<f64, MmapError> {
        self.make_room(family, sample, labels)?;
        self.store
            .increment(&mut SharedMap::new(&mut self.map), family, sample, labels, by.to_bits(), plus)
            .map(f64::from_bits)
    }

    fn set(&mut self, family: &str, sample: &str, labels: &str, value: f64) -> Result<f64, MmapError> {
        self.make_room(family, sample, labels)?;
        self.store
            .set(&mut SharedMap::new(&mut self.map), family, sample, labels, value.to_bits())
            .map(f64::from_bits)
    }
}

fn used(map: &[u8]) -> usize {
    u32::from_ne_bytes(map[0..4].try_into().unwrap()) as usize
}

#[test]
fn can_create_and_update_entries() {
    let mut store = MemFile::open(Vec::new()).unwrap();
    assert_eq!(store.get("demo_counter", "demo_counter", r#"{k="1"}"#).unwrap(), 0.0);
    assert_eq!(
        store.increment("demo_counter", "demo_counter", r#"{k="1"}"#, 2.0).unwrap(),
        2.0
    );
    assert_eq!(
        store.increment("demo_counter", "demo_counter", r#"{k="1"}"#, 3.0).unwrap(),
        5.0
    );
    assert_eq!(store.set("demo_counter", "demo_counter", r#"{k="1"}"#, 9.0).unwrap(), 9.0);
    assert_eq!(store.get("demo_counter", "demo_counter", r#"{k="1"}"#).unwrap(), 9.0);
}

#[test]
fn canonicalizes_labels() {
    let mut file = MemFile::open(Vec::new()).unwrap();
    file.store
        .increment_with_labels(
            &mut SharedMap::new(&mut file.map),
            "demo_counter",
            "demo_counter",
            &[("b", "2"), ("a", "1")],
            1.0f64.to_bits(),
            plus,
        )
        .unwrap();

    assert_eq!(
        file.get("demo_counter", "demo_counter", r#"{a="1",b="2"}"#).unwrap(),
        1.0
    );
}

#[test]
fn opening_old_version_reinitializes_file() {
    let mut file = MemFile::open([0u8; 16].to_vec()).unwrap();
    assert_eq!(file.increment("demo_counter", "demo_counter", "", 1.0).unwrap(), 1.0);

    let bytes = &file.map;
    assert_eq!(
        u32::from_ne_bytes(bytes[4..8].try_into().unwrap()),
        FILE_FORMAT_VERSION
    );
}

#[test]
fn a_new_file_gets_a_page_and_a_header() {
    let file = MemFile::open(Vec::new()).unwrap();
    assert_eq!(file.map.len(), PAGE_SIZE);
    assert_eq!(&file.map[0..4], &8u32.to_ne_bytes());
    assert_eq!(&file.map[4..8], &2u32.to_ne_bytes());
    assert_eq!(&file.map[8..], &[0u8; PAGE_SIZE - 8][..]);
    assert_eq!(MmapMetricStore::used(&file.map).unwrap(), HEADER_SIZE);
}

#[test]
fn an_unknown_version_is_emptied() {
    let mut map = vec![0xEEu8; 64];
    map[4..8].copy_from_slice(&1u32.to_ne_bytes());
    let file = MemFile::open(map).unwrap();
    assert_eq!(&file.map[0..4], &8u32.to_ne_bytes());
    assert_eq!(&file.map[4..8], &FILE_FORMAT_VERSION.to_ne_bytes());
    assert_eq!(&file.map[8..], &[0u8; 56][..]);
}

#[test]
fn a_missing_used_header_is_filled_in() {
    let mut map = vec![0x55u8; 64];
    map[0..4].copy_from_slice(&0u32.to_ne_bytes());
    map[4..8].copy_from_slice(&FILE_FORMAT_VERSION.to_ne_bytes());
    let file = MemFile::open(map).unwrap();
    assert_eq!(used(&file.map), 8);
    assert_eq!(&file.map[8..], &[0x55u8; 56][..]);
}

#[test]
fn reopening_finds_what_was_written() {
    let mut file = MemFile::open(Vec::new()).unwrap();
    file.set("f", "f_sum", "{a=\"1\"}", 1.5).unwrap();
    file.set("f", "f_count", "{a=\"1\"}", 2.0).unwrap();
    file.set("f", "f_sum", "", -0.0).unwrap();
    file.set("f", "f_sum", "{a=\"1\"}", 4.5).unwrap();

    let again = MemFile::open(file.map.clone()).unwrap();
    assert_eq!(again.map, file.map);
    assert_eq!(again.get("f", "f_sum", "{a=\"1\"}").unwrap(), 4.5);
    assert_eq!(again.get("f", "f_count", "{a=\"1\"}").unwrap(), 2.0);
    assert_eq!(again.get("f", "f_sum", "").unwrap().to_bits(), (-0.0f64).to_bits());
    assert_eq!(again.get("f", "other", "").unwrap(), 0.0);
}

#[test]
fn an_update_touches_its_value_alone() {
    let mut file = MemFile::open(Vec::new()).unwrap();
    file.set("a", "a", "", 1.0).unwrap();
    file.set("b", "b", "", 2.0).unwrap();
    let before = file.map.clone();
    file.set("a", "a", "", 3.0).unwrap();
    let changed: Vec<usize> = (0..before.len()).filter(|&i| before[i] != file.map[i]).collect();
    assert!(changed.iter().all(|&i| 24 <= i && i < 32));
    assert_eq!(file.get("b", "b", "").unwrap(), 2.0);
}

#[test]
fn an_entry_is_appended_behind_the_bytes_in_use() {
    let mut file = MemFile::open(Vec::new()).unwrap();
    file.set("fam", "sam", "{l}", 6.25).unwrap();
    assert_eq!(used(&file.map), 8 + 32);
    let entry = RawEntry::from_slice(&file.map[8..40]).unwrap();
    assert_eq!(entry.family_bytes(), b"fam");
    assert_eq!(entry.sample_bytes(), b"sam");
    assert_eq!(entry.labels_bytes(), b"{l}");
    assert_eq!(f64::from_bits(entry.value()), 6.25);
}

#[test]
fn bytes_that_are_not_in_use_are_invisible() {
    let mut file = MemFile::open(Vec::new()).unwrap();
    file.set("a", "a", "", 1.0).unwrap();
    let published = file.map.clone();
    file.set("b", "b", "", 2.0).unwrap();
    let mut torn = file.map.clone();
    torn[0..4].copy_from_slice(&published[0..4]);
    let reader = MemFile::open(torn).unwrap();
    assert_eq!(reader.get("a", "a", "").unwrap(), 1.0);
    assert_eq!(reader.get("b", "b", "").unwrap(), 0.0);
}

#[test]
fn a_full_file_grows_by_doubling() {
    let mut file = MemFile::open(Vec::new()).unwrap();
    let name = "n".repeat(1000);
    for i in 0..10 {
        let labels = format!("{{i=\"{i}\"}}");
        assert_eq!(file.increment(&name, &name, &labels, i as f64).unwrap(), i as f64);
    }
    assert_eq!(file.map.len(), 8 * PAGE_SIZE);
    for i in 0..10 {
        let labels = format!("{{i=\"{i}\"}}");
        assert_eq!(file.get(&name, &name, &labels).unwrap(), i as f64);
    }
}

#[test]
fn growth_is_in_whole_pages() {
    assert_eq!(page_aligned_size(0, 4096).unwrap(), 0);
    assert_eq!(page_aligned_size(1, 4096).unwrap(), 4096);
    assert_eq!(page_aligned_size(4096, 4096).unwrap(), 4096);
    assert_eq!(page_aligned_size(4097, 4096).unwrap(), 8192);
    assert_eq!(page_aligned_size(usize::MAX, 4096).unwrap_err(), MmapError::Overflow);

    assert_eq!(initial_size(0, 4096).unwrap(), Some(4096));
    assert_eq!(initial_size(7, 4096).unwrap(), Some(4096));
    assert_eq!(initial_size(8, 4096).unwrap(), None);

    assert_eq!(ensure_capacity(4096, 4096, 4096).unwrap(), None);
    assert_eq!(ensure_capacity(4096, 4097, 4096).unwrap(), Some(8192));
    assert_eq!(ensure_capacity(16, 40, 4096).unwrap(), Some(4096));
    assert_eq!(ensure_capacity(0, 9, 1).unwrap(), Some(16));
    assert_eq!(ensure_capacity(4096, 40000, 4096).unwrap(), Some(65536));
    assert_eq!(ensure_capacity(8, usize::MAX, 4096).unwrap_err(), MmapError::Overflow);
}

#[test]
fn a_store_without_room_refuses_a_new_key() {
    let mut map = vec![0u8; 31];
    let mut store = MmapMetricStore::open(&mut map).unwrap();
    let before = map.clone();
    let err = store.set(&mut SharedMap::new(&mut map), "a", "a", "", 1.0f64.to_bits()).unwrap_err();
    assert_eq!(err, MmapError::EntryTooLarge { needed: 24, available: 23 });
    assert_eq!(map, before);
    assert_eq!(store.room_needed(&map, "a", "a", "").unwrap(), Some(32));
}

#[test]
fn a_header_that_claims_too_much_is_refused() {
    let mut map = vec![0u8; 16];
    map[0..4].copy_from_slice(&17u32.to_ne_bytes());
    map[4..8].copy_from_slice(&FILE_FORMAT_VERSION.to_ne_bytes());
    let err = MmapMetricStore::open(&mut map).unwrap_err();
    assert_eq!(err, MmapError::InvalidUsed { used: 17, len: 16 });
    assert_eq!(
        MmapMetricStore::used(&map).unwrap_err(),
        MmapError::InvalidUsed { used: 17, len: 16 }
    );
    assert_eq!(MmapMetricStore::used(&map[0..7]).unwrap(), 8);
}

#[test]
fn a_malformed_entry_is_refused() {
    let mut file = MemFile::open(Vec::new()).unwrap();
    file.set("a", "a", "", 1.0).unwrap();
    let mut map = file.map.clone();
    map[8..12].copy_from_slice(&500u32.to_ne_bytes());
    let err = MmapMetricStore::open(&mut map).unwrap_err();
    assert_eq!(err, MmapError::OutOfBounds { offset: 528, len: 24 });
}

#[test]
fn a_name_that_is_not_text_is_refused() {
    let mut file = MemFile::open(Vec::new()).unwrap();
    file.set("abc", "a", "", 1.0).unwrap();
    let mut map = file.map.clone();
    map[21] = 0xFF;
    let err = MmapMetricStore::open(&mut map).unwrap_err();
    let bad = vec![b'a', 0xFF, b'c'];
    assert_eq!(err, MmapError::Utf8(std::str::from_utf8(&bad).unwrap_err()));
}

#[test]
fn a_position_beyond_the_bytes_in_use_is_refused() {
    let mut file = MemFile::open(Vec::new()).unwrap();
    file.set("a", "a", "", 1.0).unwrap();
    file.map[0..4].copy_from_slice(&8u32.to_ne_bytes());
    assert_eq!(
        file.get("a", "a", "").unwrap_err(),
        MmapError::OutOfBounds { offset: 32, len: 8 }
    );
    let short = &file.map[0..20];
    assert_eq!(
        load_value(short, 24).unwrap_err(),
        MmapError::OutOfBounds { offset: 32, len: 20 }
    );
    assert_eq!(load_value(&file.map, 24).unwrap(), 1.0f64.to_bits());
}

#[test]
fn a_mapping_that_lost_a_value_refuses_its_update() {
    let mut file = MemFile::open(Vec::new()).unwrap();
    file.set("a", "a", "", 1.0).unwrap();
    let mut short = file.map[0..24].to_vec();
    let err = file.store.set(&mut SharedMap::new(&mut short), "a", "a", "", 0).unwrap_err();
    assert_eq!(err, MmapError::OutOfBounds { offset: 32, len: 24 });
    assert_eq!(short, file.map[0..24].to_vec());
}

#[test]
fn label_variants_agree_with_the_plain_ones() {
    let mut file = MemFile::open(Vec::new()).unwrap();
    let labels = [("path", "/"), ("method", "GET")];
    file.store
        .set_with_labels(&mut SharedMap::new(&mut file.map), "f", "s", &labels, 2.0f64.to_bits())
        .unwrap();
    assert_eq!(file.get("f", "s", "{method=\"GET\",path=\"/\"}").unwrap(), 2.0);
    let bits = file.store.get_with_labels(&file.map, "f", "s", &labels).unwrap();
    assert_eq!(f64::from_bits(bits), 2.0);
}

#[test]
fn upsert_hands_on_the_value_it_finds() {
    let mut file = MemFile::open(Vec::new()).unwrap();
    let first = file
        .store
        .upsert(&mut SharedMap::new(&mut file.map), "f", "s", "", |bits| {
            assert_eq!(bits, 0);
            10
        })
        .unwrap();
    assert_eq!(first, 10);
    let second = file.store.upsert(&mut SharedMap::new(&mut file.map), "f", "s", "", |bits| bits * 3).unwrap();
    assert_eq!(second, 30);
    assert_eq!(file.store.get(&file.map, "f", "s", "").unwrap(), 30);
}

#[test]
fn every_value_of_a_file_is_aligned() {
    let mut file = MemFile::open(Vec::new()).unwrap();
    for n in 0..20 {
        let family = "f".repeat(n + 1);
        file.set(&family, "s", &"l".repeat(n % 5), 1.0).unwrap();
        assert_eq!(claimed_used(&file.map), used(&file.map));
        assert_eq!(used(&file.map) % 8, 0);
    }
    let mut entries = Vec::new();
    let (end, stop) = scan_entries(&file.map, HEADER_SIZE, used(&file.map), &mut entries);
    assert!(matches!(stop, ScanStop::Done));
    assert_eq!(end, used(&file.map));
    assert_eq!(entries.len(), 20);
    for entry in &entries {
        assert_eq!(entry.value_offset % 8, 0);
    }
}

#[test]
fn a_shared_map_is_written_step_by_step() {
    let mut bytes = vec![0u8; 48];
    let mut map = SharedMap::new(&mut bytes);
    assert_eq!(map.put_entry(8, 40, b"fam", b"sam", b"{l}", 6.25f64.to_bits()), Ok(24));
    map.fence();
    assert_eq!(used(map.as_slice()), 0);
    map.put_u32(0, 40);
    assert_eq!(used(map.as_slice()), 40);
    map.put_u64(32, 1.5f64.to_bits());
    assert_eq!(
        map.put_entry(40, 48, b"a", b"a", b"", 0),
        Err(MmapError::EntryTooLarge { needed: 24, available: 8 })
    );
    let entry = RawEntry::from_slice(&bytes[8..40]).unwrap();
    assert_eq!(entry.sample_bytes(), b"sam");
    assert_eq!(f64::from_bits(entry.value()), 1.5);
    assert_eq!(&bytes[40..], &[0u8; 8]);
}

#[test]
fn every_moment_of_an_append_is_a_whole_file() {
    let mut file = MemFile::open(Vec::new()).unwrap();
    file.set("a", "a", "", 1.0).unwrap();
    let before = file.map.clone();
    file.set("b", "b", "", 2.0).unwrap();
    let (old_used, new_used) = (used(&before), used(&file.map));
    for written in old_used..=new_used {
        let mut moment = before.clone();
        moment[old_used..written].copy_from_slice(&file.map[old_used..written]);
        let reader = MemFile::open(moment).unwrap();
        assert_eq!(reader.get("a", "a", "").unwrap(), 1.0);
        assert_eq!(reader.get("b", "b", "").unwrap(), 0.0);
    }
    let reader = MemFile::open(file.map.clone()).unwrap();
    assert_eq!(reader.get("b", "b", "").unwrap(), 2.0);
}
