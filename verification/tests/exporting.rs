use prometheus_client_php_mmap::error::MmapError;
use prometheus_client_php_mmap::exporter::{
    discover_metric_files, CachedDirExporter, CachedFile, FileEvent, FileIdentity, FileMap,
    RefreshStep, Scrape,
};
use prometheus_client_php_mmap::file_name::{parse_file_params, DirEntry, FileName};
use prometheus_client_php_mmap::merge::{MergeOp, MergedValue};
use prometheus_client_php_mmap::mmap_file::{
    ensure_capacity, initial_size, MmapMetricStore, FILE_FORMAT_VERSION,
};
use prometheus_client_php_mmap::publish::SharedMap;

fn plus(a: u64, b: u64) -> u64 {
    (f64::from_bits(a) + f64::from_bits(b)).to_bits()
}

fn value_text(value: &MergedValue) -> String {
    let mut sum = f64::from_bits(value.first);
    for step in &value.steps {
        let next = f64::from_bits(step.bits);
        sum = match step.op {
            MergeOp::Min => sum.min(next),
            MergeOp::Max => sum.max(next),
            MergeOp::Sum => sum + next,
        };
    }
    sum.to_string()
}

struct MemFile {
    name: String,
    ino: u64,
    map: Vec<u8>,
}

impl MemFile {
    fn identity(&self) -> Option<FileIdentity> {
        Some(FileIdentity { dev: 1, ino: self.ino })
    }

    fn writer(name: &str, ino: u64) -> (MemFile, MmapMetricStore) {
        let mut map = vec![0u8; initial_size(0, 4096).unwrap().unwrap()];
        let store = MmapMetricStore::open(&mut map).unwrap();
        (MemFile { name: name.to_string(), ino, map }, store)
    }

    fn increment(&mut self, store: &mut MmapMetricStore, name: &str, labels: &str, by: f64) {
        if let Some(needed) = store.room_needed(&self.map, name, name, labels).unwrap() {
            if let Some(len) = ensure_capacity(self.map.len(), needed, 4096).unwrap() {
                self.map.resize(len, 0);
            }
        }
        store
            .increment(&mut SharedMap::new(&mut self.map), name, name, labels, by.to_bits(), plus)
            .unwrap();
    }
}

fn key(name: &str) -> FileName {
    FileName { bytes: name.as_bytes().to_vec() }
}

fn entry(name: &str) -> DirEntry {
    DirEntry { name: name.as_bytes().to_vec(), shown: name.to_string(), is_file: true }
}

/// One scrape of a directory, as the service does it.
fn scrape(exporter: &mut CachedDirExporter, files: &[&MemFile]) -> Scrape {
    let listing: Vec<DirEntry> = files.iter().map(|f| entry(&f.name)).collect();
    let (found, _refusals) = exporter.discover(&listing, 0);
    let mut events = Vec::new();
    for i in 0..found.len() {
        let name = found.key(i);
        let file = files.iter().find(|f| f.name.as_bytes() == &name.bytes[..]).unwrap();
        events.push(match exporter.next_step(name, file.identity()) {
            RefreshStep::Open | RefreshStep::Reopen => {
                FileEvent::Opened { identity: file.identity(), map: &file.map }
            }
            RefreshStep::Check => {
                FileEvent::Checked { len: file.map.len(), identity: file.identity() }
            }
        });
    }
    exporter.refresh(&found, &events);
    let mut maps = Vec::new();
    for i in 0..exporter.len() {
        let name = exporter.name(i).bytes.clone();
        let file = files.iter().find(|f| f.name.as_bytes() == &name[..]).unwrap();
        maps.push(FileMap::Mapped(&file.map));
    }
    exporter.render(&maps, value_text)
}

#[test]
fn exporter_renders_current_values() {
    let (mut file, mut store) = MemFile::writer("counter_123-0.db", 1);
    file.increment(&mut store, "http_requests_total", r#"{route="/"}"#, 1.0);

    let mut exporter = CachedDirExporter::new();
    let rendered = scrape(&mut exporter, &[&file]).text;
    assert!(rendered.contains("http_requests_total{route=\"/\"} 1"));

    file.increment(&mut store, "http_requests_total", r#"{route="/"}"#, 2.0);
    file.increment(&mut store, "http_requests_total", r#"{route="/hello"}"#, 1.0);

    let rendered = scrape(&mut exporter, &[&file]).text;
    assert!(rendered.contains("http_requests_total{route=\"/\"} 3"));
    assert!(rendered.contains("http_requests_total{route=\"/hello\"} 1"));
}

#[test]
fn exporter_skips_corrupt_file_and_reports_it() {
    let (mut healthy, mut store) = MemFile::writer("counter_123-0.db", 1);
    healthy.increment(&mut store, "requests_total", "", 1.0);

    let mut corrupt = Vec::new();
    corrupt.extend_from_slice(&1024_u32.to_ne_bytes());
    corrupt.extend_from_slice(&FILE_FORMAT_VERSION.to_ne_bytes());
    let corrupt = MemFile { name: "counter_456-0.db".to_string(), ino: 2, map: corrupt };

    let mut exporter = CachedDirExporter::new();
    let rendered = scrape(&mut exporter, &[&healthy, &corrupt]).text;

    assert!(rendered.contains("requests_total 1"));
    assert!(rendered.contains("prometheus_mmap_exporter_file_errors 1"));
}

#[test]
fn an_empty_directory_exports_its_error_count() {
    let mut exporter = CachedDirExporter::new();
    let scrape = scrape(&mut exporter, &[]);
    assert_eq!(
        scrape.text,
        "# HELP prometheus_mmap_exporter_file_errors Number of metric files skipped during this scrape\n# TYPE prometheus_mmap_exporter_file_errors gauge\nprometheus_mmap_exporter_file_errors 0\n"
    );
    assert!(scrape.failures.is_empty());
}

#[test]
fn error_counts_are_written_in_decimal() {
    let mut exporter = CachedDirExporter::new();
    exporter.discover(&Vec::new(), 1070);
    assert_eq!(exporter.skipped_files(), 1070);
    let text = exporter.render(&Vec::new(), value_text).text;
    assert!(text.ends_with("\nprometheus_mmap_exporter_file_errors 1070\n"));
}

#[test]
fn values_of_several_files_come_together() {
    let (mut a, mut store_a) = MemFile::writer("counter_1-0.db", 1);
    let (mut b, mut store_b) = MemFile::writer("counter_2-0.db", 2);
    a.increment(&mut store_a, "n", "{x=\"1\"}", 0.25);
    b.increment(&mut store_b, "n", "{x=\"1\"}", 4.0);
    b.increment(&mut store_b, "m", "", 1.0);
    let mut exporter = CachedDirExporter::new();
    let text = scrape(&mut exporter, &[&b, &a]).text;
    assert!(text.starts_with(
        "# HELP m Multiprocess metric\n# TYPE m counter\nm 1\n\
         # HELP n Multiprocess metric\n# TYPE n counter\nn{x=\"1\"} 4.25\n"
    ));
}

#[test]
fn files_that_vanish_are_forgotten() {
    let (mut a, mut store_a) = MemFile::writer("counter_1-0.db", 1);
    let (mut b, mut store_b) = MemFile::writer("counter_2-0.db", 2);
    a.increment(&mut store_a, "n", "", 1.0);
    b.increment(&mut store_b, "n", "", 2.0);
    let mut exporter = CachedDirExporter::new();
    assert!(scrape(&mut exporter, &[&a, &b]).text.contains("\nn 3\n"));
    assert_eq!(exporter.len(), 2);
    assert!(scrape(&mut exporter, &[&b]).text.contains("\nn 2\n"));
    assert_eq!(exporter.len(), 1);
    assert_eq!(exporter.name(0).bytes, b"counter_2-0.db");
}

#[test]
fn a_replaced_file_is_read_anew() {
    let (mut a, mut store) = MemFile::writer("counter_1-0.db", 1);
    a.increment(&mut store, "old", "", 1.0);
    let mut exporter = CachedDirExporter::new();
    scrape(&mut exporter, &[&a]);
    let (mut b, mut store) = MemFile::writer("counter_1-0.db", 9);
    b.increment(&mut store, "new", "", 5.0);
    assert_eq!(exporter.next_step(&key("counter_1-0.db"), b.identity()), RefreshStep::Reopen);
    let text = scrape(&mut exporter, &[&b]).text;
    assert!(text.contains("\nnew 5\n"));
    assert!(!text.contains("old"));
}

#[test]
fn a_file_that_shrinks_is_walked_from_its_start() {
    let (mut a, mut store) = MemFile::writer("counter_1-0.db", 1);
    a.increment(&mut store, "x", "", 1.0);
    let first = a.map.clone();
    a.increment(&mut store, "y", "", 2.0);
    let mut exporter = CachedDirExporter::new();
    assert!(scrape(&mut exporter, &[&a]).text.contains("\ny 2\n"));
    a.map = first;
    let text = scrape(&mut exporter, &[&a]).text;
    assert!(text.contains("\nx 1\n"));
    assert!(!text.contains("y 2"));
}

#[test]
fn a_file_of_another_version_is_not_exported() {
    let (mut a, mut store) = MemFile::writer("counter_1-0.db", 1);
    a.increment(&mut store, "x", "", 1.0);
    a.map[4..8].copy_from_slice(&7u32.to_ne_bytes());
    let mut exporter = CachedDirExporter::new();
    let scrape = scrape(&mut exporter, &[&a]);
    assert!(!scrape.text.contains("x 1"));
    assert!(scrape.text.contains("prometheus_mmap_exporter_file_errors 0"));
    assert_eq!(exporter.len(), 1);
}

#[test]
fn a_file_that_turns_bad_is_reported_and_forgotten() {
    let (mut a, mut store) = MemFile::writer("counter_1-0.db", 1);
    let (mut b, mut store_b) = MemFile::writer("counter_2-0.db", 2);
    a.increment(&mut store, "x", "", 1.0);
    b.increment(&mut store_b, "y", "", 1.0);
    let mut exporter = CachedDirExporter::new();
    scrape(&mut exporter, &[&a, &b]);
    a.map[0..4].copy_from_slice(&9999u32.to_ne_bytes());
    let scrape = scrape(&mut exporter, &[&a, &b]);
    assert_eq!(scrape.failures.len(), 1);
    assert_eq!(scrape.failures[0].name, b"counter_1-0.db");
    assert_eq!(
        scrape.failures[0].error,
        Some(MmapError::InvalidUsed { used: 9999, len: 4096 })
    );
    assert!(scrape.text.contains("\ny 1\n"));
    assert!(scrape.text.contains("prometheus_mmap_exporter_file_errors 1\n"));
    assert_eq!(exporter.len(), 1);
}

#[test]
fn a_file_that_cannot_be_mapped_is_reported() {
    let (mut a, mut store) = MemFile::writer("counter_1-0.db", 1);
    a.increment(&mut store, "x", "", 1.0);
    let mut exporter = CachedDirExporter::new();
    scrape(&mut exporter, &[&a]);
    exporter.discover(&Vec::new(), 2);
    let outcome = exporter.render(&vec![FileMap::Failed], value_text);
    assert_eq!(outcome.failures.len(), 1);
    assert!(outcome.failures[0].error.is_none());
    assert!(outcome.text.contains("prometheus_mmap_exporter_file_errors 3\n"));
    assert_eq!(exporter.len(), 0);
}

#[test]
fn a_name_that_is_not_text_refuses_the_file() {
    let (mut a, mut store) = MemFile::writer("counter_1-0.db", 1);
    a.increment(&mut store, "abc", "", 1.0);
    a.map[21] = 0xFF;
    let params = parse_file_params(a.name.as_bytes(), &a.name).unwrap();
    let err = CachedFile::open(params, a.identity(), &a.map).unwrap_err();
    let bad = vec![b'a', 0xFF, b'c'];
    assert_eq!(err, MmapError::Utf8(std::str::from_utf8(&bad).unwrap_err()));
}

#[test]
fn a_malformed_tail_is_tolerated() {
    let (mut a, mut store) = MemFile::writer("counter_1-0.db", 1);
    a.increment(&mut store, "x", "", 1.0);
    let used = u32::from_ne_bytes(a.map[0..4].try_into().unwrap());
    a.map[0..4].copy_from_slice(&(used + 16).to_ne_bytes());
    a.map[used as usize..used as usize + 4].copy_from_slice(&5000u32.to_ne_bytes());
    let mut exporter = CachedDirExporter::new();
    let scrape = scrape(&mut exporter, &[&a]);
    assert!(scrape.text.contains("\nx 1\n"));
    assert!(scrape.failures.is_empty());
}

#[test]
fn names_that_cannot_be_read_are_counted() {
    let (found, refusals) = discover_metric_files(&vec![
        entry("gauge_avg_1.db"),
        entry("counter_1.db"),
        entry("readme"),
        entry("what.db"),
    ]);
    assert_eq!(found.len(), 1);
    assert_eq!(refusals.len(), 2);
    assert_eq!(refusals[0].entry, 0);
    assert_eq!(
        refusals[0].error,
        MmapError::Message("unknown multiprocess mode 'avg'".to_string())
    );
    assert_eq!(refusals[1].entry, 3);
}

#[test]
fn a_look_says_whether_to_map_anew() {
    let (mut a, mut store) = MemFile::writer("counter_1-0.db", 1);
    a.increment(&mut store, "x", "", 1.0);
    let params = parse_file_params(a.name.as_bytes(), &a.name).unwrap();
    let mut file = CachedFile::open(params, a.identity(), &a.map).unwrap();
    assert!(!file.refresh_map_if_needed(4096, a.identity()));
    assert!(file.refresh_map_if_needed(8192, a.identity()));
    assert!(!file.refresh_map_if_needed(8192, a.identity()));
    assert!(file.refresh_map_if_needed(8192, None));
    file.refresh_entries(&a.map).unwrap();
}

#[test]
fn a_file_that_cannot_be_reached_is_forgotten() {
    let (a, _store) = MemFile::writer("counter_1-0.db", 1);
    let mut exporter = CachedDirExporter::new();
    scrape(&mut exporter, &[&a]);
    assert_eq!(exporter.next_step(&key("counter_1-0.db"), a.identity()), RefreshStep::Check);
    let (found, _refusals) = exporter.discover(&vec![entry("counter_1-0.db")], 0);
    let refresh = exporter.refresh(&found, &vec![FileEvent::Failed]);
    assert_eq!(refresh.failures.len(), 1);
    assert_eq!(refresh.failures[0].name, b"counter_1-0.db");
    assert!(refresh.failures[0].error.is_none());
    assert!(refresh.stale.is_empty());
    assert_eq!(exporter.skipped_files(), 1);
    assert_eq!(exporter.next_step(&key("counter_1-0.db"), a.identity()), RefreshStep::Open);
}

#[test]
fn a_file_that_has_grown_is_mapped_anew() {
    let (mut a, mut store) = MemFile::writer("counter_1-0.db", 1);
    a.increment(&mut store, "x", "", 1.0);
    let mut exporter = CachedDirExporter::new();
    scrape(&mut exporter, &[&a]);
    let name = "n".repeat(3000);
    a.increment(&mut store, &name, "", 1.0);
    assert_eq!(a.map.len(), 8192);
    assert!(exporter.check_file(0, a.map.len(), a.identity()));
    assert!(!exporter.check_file(0, a.map.len(), a.identity()));
    let outcome = exporter.render(&vec![FileMap::Mapped(&a.map)], value_text);
    assert!(outcome.text.contains("\nx 1\n"));
    assert!(outcome.text.contains(&format!("\n{name} 1\n")));
}

#[test]
fn each_family_is_announced_once() {
    let (mut a, mut store) = MemFile::writer("gauge_all_1-0.db", 1);
    let (mut b, mut store_b) = MemFile::writer("gauge_all_2-0.db", 2);
    for labels in ["{z=\"1\"}", "", "{a=\"1\"}"] {
        a.increment(&mut store, "one", labels, 1.0);
        a.increment(&mut store, "two", labels, 1.0);
        b.increment(&mut store_b, "one", labels, 2.0);
    }
    let mut exporter = CachedDirExporter::new();
    let text = scrape(&mut exporter, &[&a, &b]).text;
    assert_eq!(text.matches("# TYPE one gauge\n").count(), 1);
    assert_eq!(text.matches("# TYPE two gauge\n").count(), 1);
    assert!(text.contains("one{a=\"1\",pid=\"1\"} 1\none{a=\"1\",pid=\"2\"} 2\n"));
}

/// A directory with two files in use.
fn healthy() -> [MemFile; 2] {
    let (mut a, mut store_a) = MemFile::writer("counter_1-0.db", 1);
    let (mut b, mut store_b) = MemFile::writer("gauge_max_2-0.db", 2);
    a.increment(&mut store_a, "n", "{x=\"1\"}", 0.5);
    b.increment(&mut store_b, "m", "", 7.0);
    [a, b]
}

fn metric_lines(text: &str) -> &str {
    let end = text.find("# HELP prometheus_mmap_exporter_file_errors").unwrap();
    &text[..end]
}

#[test]
fn one_more_file_that_cannot_be_used_changes_the_count_alone() {
    let [a, b] = healthy();
    let plain = scrape(&mut CachedDirExporter::new(), &[&a, &b]).text;
    assert!(plain.ends_with("prometheus_mmap_exporter_file_errors 0\n"));

    let (named, _) = MemFile::writer("gauge_avg_9.db", 3);
    let (mut overrun, _) = MemFile::writer("counter_0-0.db", 3);
    overrun.map[0..4].copy_from_slice(&4097u32.to_ne_bytes());
    let (mut binary, mut store) = MemFile::writer("counter_5-0.db", 3);
    binary.increment(&mut store, "abc", "", 1.0);
    binary.map[21] = 0xFF;
    for bad in [&named, &overrun, &binary] {
        let mut exporter = CachedDirExporter::new();
        for _ in 0..2 {
            let text = scrape(&mut exporter, &[&a, bad, &b]).text;
            assert_eq!(metric_lines(&text), metric_lines(&plain));
            assert!(text.ends_with("prometheus_mmap_exporter_file_errors 1\n"));
            assert_eq!(exporter.len(), 2);
        }
    }
}

#[test]
fn bytes_past_the_end_and_unknown_versions_leave_the_text() {
    let [a, mut b] = healthy();
    let plain = scrape(&mut CachedDirExporter::new(), &[&a, &b]).text;
    let used = u32::from_ne_bytes(b.map[0..4].try_into().unwrap()) as usize;
    for byte in &mut b.map[used..] {
        *byte = 0xA5;
    }
    b.map.resize(9000, 0x11);
    assert_eq!(scrape(&mut CachedDirExporter::new(), &[&a, &b]).text, plain);

    let (mut other, mut store) = MemFile::writer("counter_3-0.db", 3);
    other.increment(&mut store, "n", "{x=\"1\"}", 100.0);
    other.map[4..8].copy_from_slice(&3u32.to_ne_bytes());
    assert_eq!(scrape(&mut CachedDirExporter::new(), &[&a, &other, &b]).text, plain);
    other.map[0..4].copy_from_slice(&99999u32.to_ne_bytes());
    assert_eq!(scrape(&mut CachedDirExporter::new(), &[&a, &other, &b]).text, plain);
    other.map.truncate(7);
    assert_eq!(scrape(&mut CachedDirExporter::new(), &[&a, &other, &b]).text, plain);
}

#[test]
fn a_pass_tells_which_files_to_map_anew() {
    let [a, b] = healthy();
    let mut exporter = CachedDirExporter::new();
    scrape(&mut exporter, &[&a, &b]);
    let listing = vec![entry("gauge_max_2-0.db"), entry("counter_1-0.db"), entry("x.db")];
    let (found, refusals) = exporter.discover(&listing, 3);
    assert_eq!(refusals.len(), 1);
    assert_eq!(exporter.skipped_files(), 4);
    let events = vec![
        FileEvent::Checked { len: 4096, identity: a.identity() },
        FileEvent::Checked { len: 8192, identity: b.identity() },
    ];
    let refresh = exporter.refresh(&found, &events);
    assert!(refresh.failures.is_empty());
    assert_eq!(refresh.stale.len(), 1);
    assert_eq!(refresh.stale[0].bytes, b"gauge_max_2-0.db");
    assert_eq!(exporter.skipped_files(), 4);
}

#[test]
fn a_refused_file_is_skipped_with_its_reason() {
    let [a, mut b] = healthy();
    b.map[0..4].copy_from_slice(&5000u32.to_ne_bytes());
    let mut exporter = CachedDirExporter::new();
    let (found, _refusals) = exporter.discover(&vec![entry(&a.name), entry(&b.name)], 0);
    let events = vec![
        FileEvent::Opened { identity: a.identity(), map: &a.map },
        FileEvent::Opened { identity: b.identity(), map: &b.map },
    ];
    let refresh = exporter.refresh(&found, &events);
    assert_eq!(refresh.failures.len(), 1);
    assert_eq!(
        refresh.failures[0].error,
        Some(MmapError::InvalidUsed { used: 5000, len: 4096 })
    );
    assert_eq!(exporter.skipped_files(), 1);
    assert_eq!(exporter.len(), 1);
}

#[test]
fn a_look_at_an_unknown_file_skips_it() {
    let mut exporter = CachedDirExporter::new();
    let (found, _refusals) = exporter.discover(&vec![entry("counter_1-0.db")], 0);
    let refresh = exporter.refresh(&found, &vec![FileEvent::Checked { len: 8, identity: None }]);
    assert_eq!(refresh.failures.len(), 1);
    assert_eq!(exporter.len(), 0);
}

#[test]
fn a_scrape_during_an_append_finds_the_file_in_order() {
    let (mut a, mut store) = MemFile::writer("counter_1-0.db", 1);
    a.increment(&mut store, "x", "", 1.0);
    let before = a.map.clone();
    let mut exporter = CachedDirExporter::new();
    let plain = scrape(&mut exporter, &[&a]).text;
    a.increment(&mut store, "y", "", 2.0);
    let after = a.map.clone();
    let start = u32::from_ne_bytes(before[0..4].try_into().unwrap()) as usize;
    let end = u32::from_ne_bytes(after[0..4].try_into().unwrap()) as usize;
    for written in start..=end {
        a.map = before.clone();
        a.map[start..written].copy_from_slice(&after[start..written]);
        assert_eq!(scrape(&mut exporter, &[&a]).text, plain);
    }
    a.map = after;
    let text = scrape(&mut exporter, &[&a]).text;
    assert!(text.contains("\nx 1\n"));
    assert!(text.contains("\ny 2\n"));
}
