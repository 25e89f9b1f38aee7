use prometheus_client_php_mmap::aggregate::{
    aggregate_dir_to_prometheus_text, discover_metric_files, merge_files, render, KeyText,
    LabelValue, MetricFile, MetricText, MetricType, MultiprocessMode, RowText,
};
use prometheus_client_php_mmap::error::MmapError;
use prometheus_client_php_mmap::file_name::{
    is_metric_file, parse_file_params, strip_file_suffix_number, DirEntry,
};
use prometheus_client_php_mmap::merge::{
    is_pid_significant, merge_meta, EntryMeta, Incoming, MergeOp, MergeStep, MergedValue,
};
use prometheus_client_php_mmap::mmap_file::{ensure_capacity, MmapMetricStore};
use prometheus_client_php_mmap::publish::SharedMap;
use prometheus_client_php_mmap::render::{append_sample, render_rows, Row};

fn plus(a: u64, b: u64) -> u64 {
    (f64::from_bits(a) + f64::from_bits(b)).to_bits()
}

/// The double that a merged value comes to.
fn total(value: &MergedValue) -> f64 {
    let mut sum = f64::from_bits(value.first);
    for step in &value.steps {
        let next = f64::from_bits(step.bits);
        sum = match step.op {
            MergeOp::Min => sum.min(next),
            MergeOp::Max => sum.max(next),
            MergeOp::Sum => sum + next,
        };
    }
    sum
}

fn parse_key(text: &str) -> Result<MetricText, String> {
    let parsed: (String, String, Vec<String>, Vec<serde_json::Value>) =
        serde_json::from_str(text).map_err(|e| e.to_string())?;
    let values = parsed
        .3
        .into_iter()
        .map(|value| match value {
            serde_json::Value::Null => LabelValue::Null,
            serde_json::Value::String(s) => LabelValue::Text(s),
            other => LabelValue::Other(other.to_string()),
        })
        .collect();
    Ok(MetricText { family_name: parsed.0, metric_name: parsed.1, labels: parsed.2, values })
}

/// The files of a directory: names and bytes.
struct MemDir {
    files: Vec<(String, Vec<u8>)>,
}

struct MemStore {
    name: String,
    map: Vec<u8>,
    store: MmapMetricStore,
}

impl MemStore {
    fn open(name: &str) -> MemStore {
        let mut map = vec![0u8; 4096];
        let store = MmapMetricStore::open(&mut map).unwrap();
        MemStore { name: name.to_string(), map, store }
    }

    fn room(&mut self, family: &str, sample: &str, labels: &str) {
        if let Some(needed) = self.store.room_needed(&self.map, family, sample, labels).unwrap() {
            if let Some(len) = ensure_capacity(self.map.len(), needed, 4096).unwrap() {
                self.map.resize(len, 0);
            }
        }
    }

    fn increment(&mut self, family: &str, sample: &str, labels: &str, by: f64) {
        self.room(family, sample, labels);
        self.store
            .increment(&mut SharedMap::new(&mut self.map), family, sample, labels, by.to_bits(), plus)
            .unwrap();
    }

    fn set(&mut self, family: &str, sample: &str, labels: &str, value: f64) {
        self.room(family, sample, labels);
        self.store
            .set(&mut SharedMap::new(&mut self.map), family, sample, labels, value.to_bits())
            .unwrap();
    }
}

impl MemDir {
    fn of(stores: Vec<MemStore>) -> MemDir {
        MemDir { files: stores.into_iter().map(|s| (s.name, s.map)).collect() }
    }

    fn listing(&self) -> Vec<DirEntry> {
        self.files
            .iter()
            .map(|(name, _)| DirEntry {
                name: name.as_bytes().to_vec(),
                shown: format!("dir/{name}"),
                is_file: true,
            })
            .collect()
    }

    fn metric_files(&self) -> Result<Vec<MetricFile>, MmapError> {
        let found = discover_metric_files(&self.listing())?;
        let mut files = Vec::new();
        for i in 0..found.len() {
            let name = String::from_utf8(found.key(i).bytes.clone()).unwrap();
            let bytes = self.files.iter().find(|f| f.0 == name).unwrap().1.clone();
            files.push(MetricFile { params: found.value(i).clone(), bytes });
        }
        Ok(files)
    }

    fn aggregate(&self) -> Result<String, MmapError> {
        let files = self.metric_files()?;
        let value_text = |value: &MergedValue| total(value).to_string();
        aggregate_dir_to_prometheus_text(&files, value_text, parse_key)
    }
}

#[test]
fn aggregate_counter_files_from_dir() {
    let key = r#"["http_requests_total","http_requests_total",["method"],["GET"]]"#;
    let mut s1 = MemStore::open("counter_100-0.db");
    let mut s2 = MemStore::open("counter_101-0.db");
    s1.increment(key, "", "", 2.0);
    s2.increment(key, "", "", 3.0);

    let rendered = MemDir::of(vec![s1, s2]).aggregate().unwrap();

    assert!(rendered.contains("# TYPE http_requests_total counter"));
    assert!(rendered.contains("http_requests_total{method=\"GET\"} 5"));
}

#[test]
fn aggregate_gauge_all_keeps_pid_label() {
    let key = r#"["queue_depth","queue_depth",[],[]]"#;
    let mut s1 = MemStore::open("gauge_all_worker_1-0.db");
    let mut s2 = MemStore::open("gauge_all_worker_2-0.db");
    s1.set(key, "", "", 2.0);
    s2.set(key, "", "", 3.0);

    let rendered = MemDir::of(vec![s1, s2]).aggregate().unwrap();

    assert!(rendered.contains("queue_depth{pid=\"worker_1\"} 2"));
    assert!(rendered.contains("queue_depth{pid=\"worker_2\"} 3"));
}

#[test]
fn slash_in_label_is_not_json_escaped() {
    let key = r#"["http_requests_total","http_requests_total",["path"],["/hello"]]"#;
    let mut s1 = MemStore::open("counter_200-0.db");
    s1.increment(key, "", "", 1.0);

    let rendered = MemDir::of(vec![s1]).aggregate().unwrap();
    assert!(rendered.contains(r#"http_requests_total{path="/hello"} 1"#));
    assert!(!rendered.contains(r#"http_requests_total{path="\/hello"}"#));
}

#[test]
fn aggregate_tolerates_corrupt_trailing_entry() {
    let key = r#"["http_requests_total","http_requests_total",["path"],["/ok"]]"#;
    let mut s1 = MemStore::open("counter_300-0.db");
    s1.increment(key, "", "", 2.0);

    let mut bytes = s1.map.clone();
    let used = u32::from_ne_bytes(bytes[0..4].try_into().unwrap()) as usize;
    let trailing = [0xFF, 0xEE, 0xDD, 0xCC, 0xAA, 0xBB];
    bytes.extend_from_slice(&trailing);
    let new_used = used + trailing.len();
    bytes[0..4].copy_from_slice(&(new_used as u32).to_ne_bytes());
    s1.map = bytes;

    let rendered = MemDir::of(vec![s1]).aggregate().unwrap();
    assert!(rendered.contains(r#"http_requests_total{path="/ok"} 2"#));
}

#[test]
fn structured_entries_are_rendered_by_family() {
    let mut s1 = MemStore::open("counter_1-0.db");
    let mut s2 = MemStore::open("counter_2-0.db");
    s1.increment("b_total", "b_total", "", 1.0);
    s1.increment("a_total", "a_total", "{x=\"2\"}", 2.0);
    s2.increment("a_total", "a_total", "{x=\"1\"}", 0.5);
    s2.increment("b_total", "b_total", "", 4.0);
    let rendered = MemDir::of(vec![s2, s1]).aggregate().unwrap();
    assert_eq!(
        rendered,
        "# HELP a_total Multiprocess metric\n\
         # TYPE a_total counter\n\
         a_total{x=\"1\"} 0.5\n\
         a_total{x=\"2\"} 2\n\
         # HELP b_total Multiprocess metric\n\
         # TYPE b_total counter\n\
         b_total 5\n"
    );
}

#[test]
fn gauges_are_merged_by_mode() {
    let mut stores = Vec::new();
    for mode in ["min", "max", "livesum"] {
        for (pid, value) in [(1, 3.0), (2, 7.0), (3, 1.0)] {
            let mut s = MemStore::open(&format!("gauge_{mode}_{pid}-0.db"));
            s.set(&format!("g_{mode}"), "g", "", value);
            stores.push(s);
        }
    }
    let rendered = MemDir::of(stores).aggregate().unwrap();
    assert!(rendered.contains("# TYPE g_min gauge\ng 1\n"));
    assert!(rendered.contains("# TYPE g_max gauge\ng 7\n"));
    assert!(rendered.contains("# TYPE g_livesum gauge\ng 11\n"));
}

#[test]
fn a_process_keeps_its_last_file() {
    let mut s1 = MemStore::open("gauge_liveall_7-0.db");
    let mut s2 = MemStore::open("gauge_liveall_7-1.db");
    s1.set("g", "g", "{a=\"b\"}", 1.0);
    s2.set("g", "g", "{a=\"b\"}", 2.0);
    let rendered = MemDir::of(vec![s2, s1]).aggregate().unwrap();
    assert!(rendered.contains("g{a=\"b\",pid=\"7\"} 2\n"));
    assert!(!rendered.contains(" 1\n"));
}

#[test]
fn files_of_another_version_are_passed_over() {
    let mut s1 = MemStore::open("counter_1-0.db");
    s1.increment("a", "a", "", 1.0);
    let mut old = MemStore::open("counter_2-0.db");
    old.increment("a", "a", "", 1.0);
    old.map[4..8].copy_from_slice(&1u32.to_ne_bytes());
    let mut short = MemStore::open("counter_3-0.db");
    short.map.truncate(7);
    let rendered = MemDir::of(vec![s1, old, short]).aggregate().unwrap();
    assert!(rendered.ends_with("\na 1\n"));
}

#[test]
fn a_header_that_claims_too_much_fails_the_aggregate() {
    let mut s1 = MemStore::open("counter_1-0.db");
    s1.map.truncate(100);
    s1.map[0..4].copy_from_slice(&101u32.to_ne_bytes());
    let err = MemDir::of(vec![s1]).aggregate().unwrap_err();
    assert_eq!(err, MmapError::InvalidUsed { used: 101, len: 100 });
}

#[test]
fn a_key_that_is_no_metric_text_fails_the_aggregate() {
    let mut s1 = MemStore::open("counter_1-0.db");
    s1.increment("not json", "", "", 1.0);
    let err = MemDir::of(vec![s1]).aggregate().unwrap_err();
    assert!(matches!(err, MmapError::Message(_)));

    let mut s2 = MemStore::open("counter_1-0.db");
    s2.increment(r#"["f","f",["a","b"],["1"]]"#, "", "", 1.0);
    let err = MemDir::of(vec![s2]).aggregate().unwrap_err();
    assert_eq!(
        err,
        MmapError::Message("labels and values must have same length".to_string())
    );
}

#[test]
fn metric_texts_show_values_of_every_kind() {
    let mut s1 = MemStore::open("gauge_all_w-0.db");
    s1.set(r#"["f","f_bucket",["a","b","c","d"],[null,"x\"y",2.5,true]]"#, "", "", 1.0);
    let rendered = MemDir::of(vec![s1]).aggregate().unwrap();
    assert!(rendered.contains("f_bucket{a=\"\",b=\"x\\\"y\",c=\"2.5\",d=\"true\",pid=\"w\"} 1\n"));
}

#[test]
fn rows_are_rendered_from_what_is_known_of_them() {
    let mut s1 = MemStore::open("counter_1-0.db");
    s1.increment("fam", "fam", "", 1.0);
    let files = MemDir::of(vec![s1]).metric_files().unwrap();
    let table = merge_files(&files).unwrap();
    assert_eq!(table.len(), 1);
    let texts = vec![RowText { value: "one".to_string(), key: KeyText::Structured }];
    let text = render(&table, &texts).unwrap();
    assert_eq!(text, "# HELP fam Multiprocess metric\n# TYPE fam counter\nfam one\n");
    let texts = vec![RowText { value: "one".to_string(), key: KeyText::Refused("bad".to_string()) }];
    assert_eq!(render(&table, &texts).unwrap_err(), MmapError::Message("bad".to_string()));
}

#[test]
fn a_family_is_announced_when_it_changes() {
    let row = |family: &str, metric_type: MetricType| Row {
        family: family.to_string(),
        metric_type,
        series: "s".to_string(),
        value: "1".to_string(),
    };
    let text = render_rows(&vec![
        row("a", MetricType::Histogram),
        row("a", MetricType::Counter),
        row("b", MetricType::Summary),
    ]);
    assert_eq!(
        text,
        "# HELP a Multiprocess metric\n# TYPE a histogram\ns 1\ns 1\n\
         # HELP b Multiprocess metric\n# TYPE b summary\ns 1\n"
    );
    assert_eq!(render_rows(&Vec::new()), "");
}

#[test]
fn the_process_becomes_the_last_label() {
    let sample = |labels: &str, pid: Option<&str>| {
        let mut out = String::from(">");
        append_sample(&mut out, "s", labels, pid);
        out
    };
    assert_eq!(sample("{a=\"1\"}", None), ">s{a=\"1\"}");
    assert_eq!(sample("{a=\"1\"}", Some("p")), ">s{a=\"1\",pid=\"p\"}");
    assert_eq!(sample("", Some("p\"q")), ">s{pid=\"p\\\"q\"}");
    assert_eq!(sample("}", Some("p")), ">s{pid=\"p\"}");
    assert_eq!(sample("odd", Some("p")), ">sodd{pid=\"p\"}");
}

#[test]
fn file_names_say_type_mode_and_process() {
    let parse = |name: &str| parse_file_params(name.as_bytes(), &format!("/m/{name}"));
    let p = parse("counter_123-0.db").unwrap();
    assert_eq!(p.metric_type, MetricType::Counter);
    assert_eq!(p.multiprocess_mode, MultiprocessMode::All);
    assert_eq!(p.pid, "");
    assert_eq!(p.name, b"counter_123-0.db");
    let p = parse("gauge_livesum_worker_9-12.db").unwrap();
    assert_eq!(p.metric_type, MetricType::Gauge);
    assert_eq!(p.multiprocess_mode, MultiprocessMode::Livesum);
    assert_eq!(p.pid, "worker_9");
    let p = parse("gauge_max-1_a-2_b-3.db").unwrap();
    assert_eq!(p.multiprocess_mode, MultiprocessMode::Max);
    assert_eq!(p.pid, "a_b");
    assert_eq!(parse("dir/summary_1.db").unwrap().metric_type, MetricType::Summary);
    assert_eq!(parse("counter_1").unwrap().metric_type, MetricType::Counter);
    assert_eq!(parse("summary.db").unwrap().metric_type, MetricType::Summary);
    assert_eq!(parse("histogram-4.db").unwrap().metric_type, MetricType::Histogram);
}

#[test]
fn file_names_that_cannot_be_read_are_refused() {
    let refused = |name: &[u8], shown: &str| match parse_file_params(name, shown).unwrap_err() {
        MmapError::Message(text) => text,
        other => panic!("{other:?}"),
    };
    assert_eq!(refused(b"meter_1.db", "/m/meter_1.db"), "unknown metric type 'meter'");
    assert_eq!(refused(b"gauge_all.db", "/m/x"), "gauge filename missing mode/pid '/m/x'");
    assert_eq!(refused(b"gauge_avg_1.db", "/m/x"), "unknown multiprocess mode 'avg'");
    assert_eq!(refused(b"counter_\xFF.db", "/m/?"), "invalid filename '/m/?'");
    assert_eq!(refused(b"", ""), "invalid filename ''");
    assert_eq!(refused(b".", "."), "invalid filename '.'");
    assert_eq!(refused(b"..", ".."), "invalid filename '..'");
    assert_eq!(refused(b"/", "/"), "invalid filename '/'");
    assert_eq!(refused(b"...", "..."), "unknown metric type '..'");
}

#[test]
fn every_type_and_mode_has_its_name() {
    for name in ["counter", "gauge", "histogram", "summary"] {
        assert_eq!(MetricType::from_file_prefix(name).unwrap().as_prometheus_type(), name);
    }
    assert!(MetricType::from_file_prefix("Counter").is_err());
    assert_eq!(MultiprocessMode::from_file_part("min").unwrap(), MultiprocessMode::Min);
    assert_eq!(MultiprocessMode::from_file_part("max").unwrap(), MultiprocessMode::Max);
    assert_eq!(MultiprocessMode::from_file_part("livesum").unwrap(), MultiprocessMode::Livesum);
    assert_eq!(MultiprocessMode::from_file_part("all").unwrap(), MultiprocessMode::All);
    assert_eq!(MultiprocessMode::from_file_part("liveall").unwrap(), MultiprocessMode::Liveall);
    assert!(MultiprocessMode::from_file_part("").is_err());
}

#[test]
fn numbers_behind_a_dash_are_left_out() {
    assert_eq!(strip_file_suffix_number("123-0"), "123");
    assert_eq!(strip_file_suffix_number("123-"), "123-");
    assert_eq!(strip_file_suffix_number("123"), "123");
    assert_eq!(strip_file_suffix_number("-7"), "");
    assert_eq!(strip_file_suffix_number("a-1-22"), "a-1");
    assert_eq!(strip_file_suffix_number(""), "");
}

#[test]
fn only_db_files_are_metric_files() {
    assert!(is_metric_file(b"a.db"));
    assert!(is_metric_file(b"..db"));
    assert!(!is_metric_file(b".db"));
    assert!(!is_metric_file(b"a.dbx"));
    assert!(!is_metric_file(b"adb"));
    assert!(!is_metric_file(b".gc.lock"));
    assert!(!is_metric_file(b""));
    assert!(!is_metric_file(b".."));
    assert!(is_metric_file(b"m/a.db/"));
}

#[test]
fn discovery_sorts_skips_and_stops_at_the_first_refusal() {
    let entry = |name: &str, is_file: bool| DirEntry {
        name: name.as_bytes().to_vec(),
        shown: name.to_string(),
        is_file,
    };
    let found = discover_metric_files(&vec![
        entry("counter_2.db", true),
        entry("notes.txt", true),
        entry("bogus.db", false),
        entry("counter_10.db", true),
    ])
    .unwrap();
    let names: Vec<Vec<u8>> = (0..found.len()).map(|i| found.key(i).bytes.clone()).collect();
    assert_eq!(names, vec![b"counter_10.db".to_vec(), b"counter_2.db".to_vec()]);
    let err = discover_metric_files(&vec![
        entry("counter_2.db", true),
        entry("x.db", true),
        entry("gauge.db", true),
    ])
    .unwrap_err();
    assert_eq!(err, MmapError::Message("unknown metric type 'x'".to_string()));
}

#[test]
fn values_join_as_their_file_says() {
    let incoming = |metric_type, mode, bits| Incoming { mode, metric_type, bits };
    let mut meta = EntryMeta {
        mode: MultiprocessMode::Min,
        metric_type: MetricType::Gauge,
        value: MergedValue { first: 1, steps: Vec::new() },
    };
    merge_meta(&mut meta, &incoming(MetricType::Gauge, MultiprocessMode::Min, 2));
    merge_meta(&mut meta, &incoming(MetricType::Gauge, MultiprocessMode::Max, 3));
    merge_meta(&mut meta, &incoming(MetricType::Gauge, MultiprocessMode::Livesum, 4));
    merge_meta(&mut meta, &incoming(MetricType::Counter, MultiprocessMode::Min, 5));
    assert_eq!(meta.value.first, 1);
    assert_eq!(
        meta.value.steps,
        vec![
            MergeStep { op: MergeOp::Min, bits: 2 },
            MergeStep { op: MergeOp::Max, bits: 3 },
            MergeStep { op: MergeOp::Sum, bits: 4 },
            MergeStep { op: MergeOp::Sum, bits: 5 },
        ]
    );
    merge_meta(&mut meta, &incoming(MetricType::Gauge, MultiprocessMode::All, 6));
    assert_eq!(meta.value.first, 6);
    assert!(meta.value.steps.is_empty());
    assert_eq!(meta.mode, MultiprocessMode::Min);

    assert!(is_pid_significant(MetricType::Gauge, MultiprocessMode::All));
    assert!(is_pid_significant(MetricType::Gauge, MultiprocessMode::Liveall));
    assert!(!is_pid_significant(MetricType::Gauge, MultiprocessMode::Livesum));
    assert!(!is_pid_significant(MetricType::Counter, MultiprocessMode::All));
}

#[test]
fn the_order_of_a_listing_does_not_matter() {
    let mut stores = Vec::new();
    for (i, name) in ["gauge_max_3-0.db", "counter_1-0.db", "gauge_liveall_2-0.db"].iter().enumerate() {
        let mut s = MemStore::open(name);
        s.set("m", "m", "", i as f64);
        stores.push(s);
    }
    let dir = MemDir::of(stores);
    let mut reversed = MemDir { files: dir.files.clone() };
    reversed.files.reverse();
    assert_eq!(dir.aggregate().unwrap(), reversed.aggregate().unwrap());
}

#[test]
fn many_values_join_in_any_order() {
    let values = [4.0f64, -1.5, 8.25, 0.5];
    let joined = |mode: MultiprocessMode, order: [usize; 4]| {
        let mut meta = EntryMeta {
            mode,
            metric_type: MetricType::Gauge,
            value: MergedValue { first: values[order[0]].to_bits(), steps: Vec::new() },
        };
        for &i in &order[1..] {
            let bits = values[i].to_bits();
            merge_meta(&mut meta, &Incoming { mode, metric_type: MetricType::Gauge, bits });
        }
        assert_eq!(meta.mode, mode);
        assert_eq!(meta.metric_type, MetricType::Gauge);
        total(&meta.value)
    };
    for order in [[0, 1, 2, 3], [3, 2, 1, 0], [2, 0, 3, 1]] {
        assert_eq!(joined(MultiprocessMode::Min, order), -1.5);
        assert_eq!(joined(MultiprocessMode::Max, order), 8.25);
        assert_eq!(joined(MultiprocessMode::Livesum, order), 11.25);
        assert_eq!(joined(MultiprocessMode::All, order), values[order[3]]);
        assert_eq!(joined(MultiprocessMode::Liveall, order), values[order[3]]);
    }
}
