//! Merging the metric files of a directory into Prometheus text.

use crate::error::MmapError;
use crate::file_name::{
    is_metric_entry, is_metric_file, lemma_params_by_name, name_params, parse_file_params,
    DirEntry, FileName, FileParams, FileParamsView,
};
use crate::key_table::{lemma_sorted_rows, row_map, sorted_rows, KeyTable};
use crate::merge::{
    known_after, merge_entries, merged_entries, places_fit, EntryKey, EntryKeyView, EntryMeta,
    MergedValue, MetaView, ValueView,
};
use crate::metric_key::{
    escape_label_value, escape_text, joined_labels, label_text, MetricKeyView,
};
use crate::mmap_file::{FILE_FORMAT_VERSION, HEADER_SIZE};
use crate::native::{native_u32, read_u32};
use crate::render::{append_sample, render_rows, rendered, row_views, sample_text, Row, RowView};
use crate::scan::{
    current_used, found, lemma_scan_bounds, raw_version, scan, scan_entries, used_error, used_of,
    used_overruns, CachedEntry, FoundView,
};
use crate::text::{copy_bytes, same_text, texts};
use vstd::prelude::*;
use vstd::string::StringExecFns;

verus! {

/// What a metric is.
#[derive(Debug, Clone, Copy, PartialEq, Eq, Structural)]
pub enum MetricType {
    Counter,
    Gauge,
    Histogram,
    Summary,
}

/// The name of a metric type.
pub open spec fn type_text(metric_type: MetricType) -> Seq<char> {
    match metric_type {
        MetricType::Counter => "counter"@,
        MetricType::Gauge => "gauge"@,
        MetricType::Histogram => "histogram"@,
        MetricType::Summary => "summary"@,
    }
}

/// The refusal in these words.
pub open spec fn says(e: MmapError, text: Seq<char>) -> bool {
    e matches MmapError::Message(message) && message@ == text
}

/// `text` between a beginning and an end.
pub(crate) fn framed(start: &str, text: &str, end: &str) -> (r: String)
    ensures
        r@ == start@ + text@ + end@,
{
    let mut out: String = start.to_owned();
    out.append(text);
    out.append(end);
    out
}

impl MetricType {
    /// The name of the type.
    pub fn as_prometheus_type(self) -> (r: &'static str)
        ensures
            r@ == type_text(self),
    {
        match self {
            MetricType::Counter => "counter",
            MetricType::Gauge => "gauge",
            MetricType::Histogram => "histogram",
            MetricType::Summary => "summary",
        }
    }

    /// The type with this name.
    pub fn from_file_prefix(s: &str) -> (r: Result<Self, MmapError>)
        ensures
            match r {
                Ok(metric_type) => s@ == type_text(metric_type),
                Err(e) => (forall|t: MetricType| s@ != #[trigger] type_text(t)) && says(
                    e,
                    "unknown metric type '"@ + s@ + "'"@,
                ),
            },
    {
        if same_text(s, "counter") {
            Ok(MetricType::Counter)
        } else if same_text(s, "gauge") {
            Ok(MetricType::Gauge)
        } else if same_text(s, "histogram") {
            Ok(MetricType::Histogram)
        } else if same_text(s, "summary") {
            Ok(MetricType::Summary)
        } else {
            Err(MmapError::Message(framed("unknown metric type '", s, "'")))
        }
    }
}

/// No two types share a name.
pub proof fn law_type_text_injective(a: MetricType, b: MetricType)
    requires
        type_text(a) == type_text(b),
    ensures
        a == b,
{
    reveal_strlit("counter");
    reveal_strlit("gauge");
    reveal_strlit("histogram");
    reveal_strlit("summary");
    assert("counter"@.len() == 7 && "counter"@[0] == 'c');
    assert("gauge"@.len() == 5);
    assert("histogram"@.len() == 9);
    assert("summary"@.len() == 7 && "summary"@[0] == 's');
}

/// How the values that several processes have for one gauge come together.
#[derive(Debug, Clone, Copy, PartialEq, Eq, Structural)]
pub enum MultiprocessMode {
    Min,
    Max,
    Livesum,
    All,
    Liveall,
}

/// The name of a mode.
pub open spec fn mode_text(mode: MultiprocessMode) -> Seq<char> {
    match mode {
        MultiprocessMode::Min => "min"@,
        MultiprocessMode::Max => "max"@,
        MultiprocessMode::Livesum => "livesum"@,
        MultiprocessMode::All => "all"@,
        MultiprocessMode::Liveall => "liveall"@,
    }
}

impl MultiprocessMode {
    /// The mode with this name.
    pub fn from_file_part(s: &str) -> (r: Result<Self, MmapError>)
        ensures
            match r {
                Ok(mode) => s@ == mode_text(mode),
                Err(e) => (forall|m: MultiprocessMode| s@ != #[trigger] mode_text(m)) && says(
                    e,
                    "unknown multiprocess mode '"@ + s@ + "'"@,
                ),
            },
    {
        if same_text(s, "min") {
            Ok(MultiprocessMode::Min)
        } else if same_text(s, "max") {
            Ok(MultiprocessMode::Max)
        } else if same_text(s, "livesum") {
            Ok(MultiprocessMode::Livesum)
        } else if same_text(s, "all") {
            Ok(MultiprocessMode::All)
        } else if same_text(s, "liveall") {
            Ok(MultiprocessMode::Liveall)
        } else {
            Err(MmapError::Message(framed("unknown multiprocess mode '", s, "'")))
        }
    }
}

/// No two modes share a name.
pub proof fn law_mode_text_injective(a: MultiprocessMode, b: MultiprocessMode)
    requires
        mode_text(a) == mode_text(b),
    ensures
        a == b,
{
    reveal_strlit("min");
    reveal_strlit("max");
    reveal_strlit("livesum");
    reveal_strlit("all");
    reveal_strlit("liveall");
    assert("min"@.len() == 3 && "min"@[1] == 'i');
    assert("max"@.len() == 3 && "max"@[1] == 'a');
    assert("livesum"@.len() == 7 && "livesum"@[4] == 's');
    assert("all"@.len() == 3 && "all"@[1] == 'l');
    assert("liveall"@.len() == 7 && "liveall"@[4] == 'a');
}

/// The metric files of a directory, up to entry number `n`, by name; or the words
/// in which the first entry that cannot be read is refused.
pub open spec fn discovered(listing: Seq<DirEntry>, n: int) -> Result<
    Map<Seq<u8>, FileParamsView>,
    Seq<char>,
>
    decreases n,
{
    if n <= 0 {
        Ok(Map::empty())
    } else {
        let entry = listing[n - 1];
        match discovered(listing, n - 1) {
            Err(text) => Err(text),
            Ok(files) => if !is_metric_entry(entry) {
                Ok(files)
            } else {
                match name_params(entry.name@, entry.shown@) {
                    Err(text) => Err(text),
                    Ok(params) => Ok(files.insert(entry.name@, params)),
                }
            },
        }
    }
}

/// Finds the metric files of a directory, in the order of their names.
pub fn discover_metric_files(listing: &Vec<DirEntry>) -> (r: Result<
    KeyTable<FileName, FileParams>,
    MmapError,
>)
    ensures
        match discovered(listing@, listing@.len() as int) {
            Ok(files) => r is Ok && r.unwrap().wf() && row_map(r.unwrap()@) == files,
            Err(text) => r is Err && says(r->Err_0, text),
        },
{
    let mut files: KeyTable<FileName, FileParams> = KeyTable::new();
    let mut i: usize = 0;
    while i < listing.len()
        invariant
            i <= listing@.len(),
            files.wf(),
            discovered(listing@, i as int) == Ok::<Map<Seq<u8>, FileParamsView>, Seq<char>>(
                row_map(files@),
            ),
        decreases listing@.len() - i,
    {
        let entry = &listing[i];
        if is_metric_file(entry.name.as_slice()) && entry.is_file {
            match parse_file_params(entry.name.as_slice(), entry.shown.as_str()) {
                Ok(params) => {
                    let name = FileName { bytes: copy_bytes(entry.name.as_slice()) };
                    files.insert(name, params);
                },
                Err(e) => {
                    proof {
                        lemma_discovered_error(listing@, i + 1, listing@.len() as int);
                    }
                    return Err(e);
                },
            }
        }
        i = i + 1;
    }
    Ok(files)
}

proof fn lemma_discovered_error(listing: Seq<DirEntry>, i: int, n: int)
    requires
        0 <= i <= n <= listing.len(),
        discovered(listing, i) is Err,
    ensures
        discovered(listing, n) == discovered(listing, i),
    decreases n - i,
{
    if i < n {
        lemma_discovered_error(listing, i, n - 1);
    }
}

/// What is found in a directory does not depend on the order in which it is
/// listed: a name is found if it is that of a metric file, and stands for what it
/// says.
pub proof fn law_discovery_by_name(listing: Seq<DirEntry>, n: int, name: Seq<u8>)
    requires
        0 <= n <= listing.len(),
        discovered(listing, n) is Ok,
    ensures
        ({
            let files = discovered(listing, n)->Ok_0;
            &&& files.dom().contains(name) <==> exists|i: int|
                0 <= i < n && is_metric_entry(#[trigger] listing[i]) && listing[i].name@ == name
            &&& files.dom().contains(name) ==> name_params(name, Seq::empty()) == Ok::<
                FileParamsView,
                Seq<char>,
            >(files[name])
        }),
    decreases n,
{
    if n > 0 {
        law_discovery_by_name(listing, n - 1, name);
        let entry = listing[n - 1];
        lemma_params_by_name(entry.name@, entry.shown@, Seq::empty());
        let before = discovered(listing, n - 1)->Ok_0;
        if before.dom().contains(name) {
            let i = choose|i: int|
                0 <= i < n - 1 && is_metric_entry(#[trigger] listing[i]) && listing[i].name@
                    == name;
            assert(is_metric_entry(listing[i]) && listing[i].name@ == name);
        }
        if is_metric_entry(entry) && entry.name@ == name {
            assert(is_metric_entry(listing[n - 1]) && listing[n - 1].name@ == name);
        }
    }
}

/// A metric file: what its name says, and its bytes.
#[derive(Debug)]
pub struct MetricFile {
    pub params: FileParams,
    pub bytes: Vec<u8>,
}

/// A file that readers pass over: too short for a header, or of another version.
pub open spec fn passed_over(map: Seq<u8>) -> bool {
    map.len() < HEADER_SIZE || raw_version(map) != FILE_FORMAT_VERSION
}

/// What is known of every key after these files, or the refusal of the first
/// whose header claims bytes that it does not have.
pub open spec fn merged_files(files: Seq<MetricFile>) -> Result<
    Map<EntryKeyView, MetaView>,
    MmapError,
>
    decreases files.len(),
{
    if files.len() == 0 {
        Ok(Map::empty())
    } else {
        let map = files.last().bytes@;
        match merged_files(files.drop_last()) {
            Err(e) => Err(e),
            Ok(known) => if passed_over(map) {
                Ok(known)
            } else if used_overruns(map) {
                Err(used_error(map))
            } else {
                Ok(
                    merged_entries(
                        known,
                        files.last().params@,
                        map,
                        used_of(map),
                        scan(map, HEADER_SIZE as int, used_of(map)).entries,
                    ),
                )
            },
        }
    }
}

proof fn lemma_merged_error(files: Seq<MetricFile>, i: int)
    requires
        0 <= i <= files.len(),
        merged_files(files.take(i)) is Err,
    ensures
        merged_files(files) == merged_files(files.take(i)),
    decreases files.len() - i,
{
    if i < files.len() {
        assert(files.take(i + 1).drop_last() =~= files.take(i));
        lemma_merged_error(files, i + 1);
    } else {
        assert(files.take(i) =~= files);
    }
}

/// Joins one more file to a table.
fn merge_file(table: &mut KeyTable<EntryKey, EntryMeta>, file: &MetricFile) -> (r: Result<
    (),
    MmapError,
>)
    requires
        old(table).wf(),
    ensures
        final(table).wf(),
        ({
            let map = file.bytes@;
            if passed_over(map) {
                r == Ok::<(), MmapError>(()) && final(table)@ == old(table)@
            } else if used_overruns(map) {
                r == Err::<(), MmapError>(used_error(map)) && final(table)@ == old(table)@
            } else {
                r == Ok::<(), MmapError>(()) && row_map(final(table)@) == merged_entries(
                    row_map(old(table)@),
                    file.params@,
                    map,
                    used_of(map),
                    scan(map, HEADER_SIZE as int, used_of(map)).entries,
                )
            }
        }),
{
    let map = file.bytes.as_slice();
    if map.len() < HEADER_SIZE {
        return Ok(());
    }
    if read_u32(map, 4) != FILE_FORMAT_VERSION {
        return Ok(());
    }
    let used: usize = match current_used(map) {
        Ok(used) => used,
        Err(e) => return Err(e),
    };
    let mut entries: Vec<CachedEntry> = Vec::new();
    let (_end, _stop) = scan_entries(map, HEADER_SIZE, used, &mut entries);
    proof {
        let walk = scan(map@, HEADER_SIZE as int, used as int);
        assert(found(Seq::<CachedEntry>::empty()) =~= Seq::<FoundView>::empty());
        assert(found(entries@) =~= walk.entries);
        lemma_scan_bounds(map@, HEADER_SIZE as int, used as int);
        assert(places_fit(walk.entries));
    }
    merge_entries(table, &file.params, map, used, &entries);
    Ok(())
}

/// Brings the entries of all files together.
pub fn merge_files(files: &Vec<MetricFile>) -> (r: Result<
    KeyTable<EntryKey, EntryMeta>,
    MmapError,
>)
    ensures
        match merged_files(files@) {
            Ok(known) => r is Ok && r.unwrap().wf() && row_map(r.unwrap()@) == known,
            Err(e) => r == Err::<KeyTable<EntryKey, EntryMeta>, MmapError>(e),
        },
{
    let mut table: KeyTable<EntryKey, EntryMeta> = KeyTable::new();
    let mut i: usize = 0;
    assert(files@.take(0) =~= Seq::<MetricFile>::empty());
    while i < files.len()
        invariant
            i <= files@.len(),
            table.wf(),
            merged_files(files@.take(i as int)) == Ok::<Map<EntryKeyView, MetaView>, MmapError>(
                row_map(table@),
            ),
        decreases files@.len() - i,
    {
        proof {
            let next = files@.take(i + 1);
            assert(next.drop_last() =~= files@.take(i as int));
            assert(next.last() == files@[i as int]);
        }
        match merge_file(&mut table, &files[i]) {
            Ok(()) => {},
            Err(e) => {
                proof {
                    lemma_merged_error(files@, i + 1);
                }
                return Err(e);
            },
        }
        i = i + 1;
    }
    assert(files@.take(i as int) =~= files@);
    Ok(table)
}

/// A label value of a metric written as JSON text.
#[derive(Debug)]
pub enum LabelValue {
    Null,
    Text(String),
    /// Any other value, as its JSON text.
    Other(String),
}

/// How a label value is shown.
pub open spec fn label_value_text(value: LabelValue) -> Seq<char> {
    match value {
        LabelValue::Null => Seq::empty(),
        LabelValue::Text(s) => s@,
        LabelValue::Other(s) => s@,
    }
}

/// A metric written as JSON text: its family, its name, and its labels with their
/// values as they are shown.
#[verifier::ext_equal]
pub struct MetricTextView {
    pub family_name: Seq<char>,
    pub metric_name: Seq<char>,
    pub labels: Seq<Seq<char>>,
    pub values: Seq<Seq<char>>,
}

#[derive(Debug)]
pub struct MetricText {
    pub family_name: String,
    pub metric_name: String,
    pub labels: Vec<String>,
    pub values: Vec<LabelValue>,
}

impl View for MetricText {
    type V = MetricTextView;

    open spec fn view(&self) -> MetricTextView {
        MetricTextView {
            family_name: self.family_name@,
            metric_name: self.metric_name@,
            labels: texts(self.labels@),
            values: self.values@.map_values(|value: LabelValue| label_value_text(value)),
        }
    }
}

/// A key that holds a whole metric as JSON text in place of its family.
pub open spec fn is_metric_text(key: MetricKeyView) -> bool {
    key.sample.len() == 0 && key.labels.len() == 0
}

/// The labels of a metric with their values.
pub open spec fn text_labels(metric: MetricTextView) -> Seq<(Seq<char>, Seq<char>)> {
    Seq::new(metric.labels.len(), |i: int| (metric.labels[i], metric.values[i]))
}

/// The labels of a series, with the process last where one is given; nothing where
/// there is neither.
pub open spec fn label_block(
    labels: Seq<(Seq<char>, Seq<char>)>,
    pid: Option<Seq<char>>,
) -> Seq<char> {
    match pid {
        None => if labels.len() == 0 {
            Seq::empty()
        } else {
            seq!['{'] + joined_labels(labels) + seq!['}']
        },
        Some(pid) => if labels.len() == 0 {
            seq!['{'] + "pid=\""@ + pid + seq!['"', '}']
        } else {
            seq!['{'] + joined_labels(labels) + seq![','] + "pid=\""@ + pid + seq!['"', '}']
        },
    }
}

/// Writes the labels of a metric, and the process where one is given.
fn append_labels(out: &mut String, metric: &MetricText, pid: Option<&str>)
    requires
        metric.labels@.len() == metric.values@.len(),
    ensures
        final(out)@ == old(out)@ + label_block(
            text_labels(metric@),
            match pid {
                Some(pid) => Some(pid@),
                None => None,
            },
        ),
{
    let ghost before = out@;
    let ghost all = text_labels(metric@);
    if metric.labels.len() == 0 && pid.is_none() {
        assert(out@ =~= before + Seq::<char>::empty());
        return;
    }
    out.push('{');
    let mut i: usize = 0;
    assert(out@ =~= before + (seq!['{'] + joined_labels(all.take(0))));
    while i < metric.labels.len()
        invariant
            i <= metric.labels@.len(),
            metric.labels@.len() == metric.values@.len(),
            all == text_labels(metric@),
            out@ == before + (seq!['{'] + joined_labels(all.take(i as int))),
        decreases metric.labels@.len() - i,
    {
        let ghost so_far = out@;
        if i > 0 {
            out.push(',');
        }
        out.append(metric.labels[i].as_str());
        out.push('=');
        out.push('"');
        let value: String = match &metric.values[i] {
            LabelValue::Null => String::new(),
            LabelValue::Text(s) => escape_label_value(s.as_str()),
            LabelValue::Other(s) => escape_label_value(s.as_str()),
        };
        proof {
            assert(escape_text(Seq::<char>::empty()) =~= Seq::<char>::empty());
            assert(value@ =~= escape_text(all[i as int].1));
        }
        out.append(value.as_str());
        out.push('"');
        proof {
            let next = all.take(i + 1);
            assert(next.drop_last() =~= all.take(i as int));
            assert(next.last() == all[i as int]);
            let comma = if i > 0 {
                seq![',']
            } else {
                Seq::empty()
            };
            assert(out@ =~= so_far + comma + label_text(all[i as int]));
            if i > 0 {
                assert(out@ =~= before + (seq!['{'] + (joined_labels(all.take(i as int)).push(',')
                    + label_text(all[i as int]))));
            } else {
                assert(out@ =~= before + (seq!['{'] + label_text(next[0])));
            }
        }
        i = i + 1;
    }
    assert(all.take(i as int) =~= all);
    match pid {
        Some(pid) => {
            if i > 0 {
                out.push(',');
            }
            out.append("pid=\"");
            out.append(pid);
            out.push('"');
            out.push('}');
            assert(out@ =~= before + label_block(all, Some(pid@)));
        },
        None => {
            out.push('}');
            assert(out@ =~= before + label_block(all, None));
        },
    }
}

/// What a key says beyond its own text.
pub enum KeyTextView {
    Structured,
    Parsed(MetricTextView),
    Refused(Seq<char>),
}

/// What was found out about a row before it is written: its value as text, and
/// the metric that its key holds as JSON text, if it does.
pub struct RowTextView {
    pub value: Seq<char>,
    pub key: KeyTextView,
}

#[derive(Debug)]
pub enum KeyText {
    Structured,
    Parsed(MetricText),
    Refused(String),
}

#[derive(Debug)]
pub struct RowText {
    pub value: String,
    pub key: KeyText,
}

impl View for KeyText {
    type V = KeyTextView;

    open spec fn view(&self) -> KeyTextView {
        match self {
            KeyText::Structured => KeyTextView::Structured,
            KeyText::Parsed(metric) => KeyTextView::Parsed(metric@),
            KeyText::Refused(text) => KeyTextView::Refused(text@),
        }
    }
}

impl View for RowText {
    type V = RowTextView;

    open spec fn view(&self) -> RowTextView {
        RowTextView { value: self.value@, key: self.key@ }
    }
}

/// What a list of row texts says.
pub open spec fn row_texts(rows: Seq<RowText>) -> Seq<RowTextView> {
    rows.map_values(|row: RowText| row@)
}

/// The line of a row, or the words in which it is refused.
pub open spec fn row_of(key: EntryKeyView, meta: MetaView, text: RowTextView) -> Result<
    RowView,
    Seq<char>,
> {
    match text.key {
        KeyTextView::Structured => Ok(
            RowView {
                family: key.metric.family,
                metric_type: meta.metric_type,
                series: sample_text(key.metric.sample, key.metric.labels, key.pid),
                value: text.value,
            },
        ),
        KeyTextView::Parsed(metric) => if metric.labels.len() != metric.values.len() {
            Err("labels and values must have same length"@)
        } else {
            Ok(
                RowView {
                    family: metric.family_name,
                    metric_type: meta.metric_type,
                    series: metric.metric_name + label_block(text_labels(metric), key.pid),
                    value: text.value,
                },
            )
        },
        KeyTextView::Refused(words) => Err(words),
    }
}

/// The lines of all rows, or the words in which the first is refused that is.
pub open spec fn rows_of(
    rows: Seq<(EntryKeyView, MetaView)>,
    texts: Seq<RowTextView>,
    n: int,
) -> Result<Seq<RowView>, Seq<char>>
    decreases n,
{
    if n <= 0 {
        Ok(Seq::empty())
    } else {
        match rows_of(rows, texts, n - 1) {
            Err(words) => Err(words),
            Ok(lines) => match row_of(rows[n - 1].0, rows[n - 1].1, texts[n - 1]) {
                Err(words) => Err(words),
                Ok(line) => Ok(lines.push(line)),
            },
        }
    }
}

proof fn lemma_rows_error(
    rows: Seq<(EntryKeyView, MetaView)>,
    texts: Seq<RowTextView>,
    i: int,
    n: int,
)
    requires
        0 <= i <= n,
        rows_of(rows, texts, i) is Err,
    ensures
        rows_of(rows, texts, n) == rows_of(rows, texts, i),
    decreases n - i,
{
    if i < n {
        lemma_rows_error(rows, texts, i, n - 1);
    }
}

/// Writes out merged rows, given what was found out about each.
pub fn render(table: &KeyTable<EntryKey, EntryMeta>, texts: &Vec<RowText>) -> (r: Result<
    String,
    MmapError,
>)
    requires
        texts@.len() == table@.len(),
    ensures
        match rows_of(table@, row_texts(texts@), table@.len() as int) {
            Ok(rows) => r is Ok && r.unwrap()@ == rendered(rows),
            Err(words) => r is Err && says(r->Err_0, words),
        },
{
    let ghost found_out = row_texts(texts@);
    let mut rows: Vec<Row> = Vec::new();
    let mut i: usize = 0;
    assert(row_views(rows@) =~= Seq::<RowView>::empty());
    while i < texts.len()
        invariant
            i <= texts@.len(),
            texts@.len() == table@.len(),
            found_out == row_texts(texts@),
            rows_of(table@, found_out, i as int) == Ok::<Seq<RowView>, Seq<char>>(
                row_views(rows@),
            ),
        decreases texts@.len() - i,
    {
        let key = table.key(i);
        let meta = table.value(i);
        let text = &texts[i];
        assert(found_out[i as int] == text@);
        let ghost before = row_views(rows@);
        let pid: Option<&str> = match &key.pid {
            Some(pid) => Some(pid.as_str()),
            None => None,
        };
        let mut series: String = String::new();
        let family: String;
        match &text.key {
            KeyText::Structured => {
                append_sample(
                    &mut series,
                    key.metric.sample.as_str(),
                    key.metric.labels.as_str(),
                    pid,
                );
                family = key.metric.family.clone();
            },
            KeyText::Parsed(metric) => {
                if metric.labels.len() != metric.values.len() {
                    proof {
                        lemma_rows_error(table@, found_out, i + 1, table@.len() as int);
                    }
                    return Err(
                        MmapError::Message("labels and values must have same length".to_owned()),
                    );
                }
                series.append(metric.metric_name.as_str());
                append_labels(&mut series, metric, pid);
                family = metric.family_name.clone();
            },
            KeyText::Refused(words) => {
                proof {
                    lemma_rows_error(table@, found_out, i + 1, table@.len() as int);
                }
                return Err(MmapError::Message(words.clone()));
            },
        }
        let row = Row { family, metric_type: meta.metric_type, series, value: text.value.clone() };
        proof {
            let line = row_of(table@[i as int].0, table@[i as int].1, found_out[i as int])->Ok_0;
            assert(row@.series =~= line.series);
            assert(row@ =~= line);
        }
        let ghost line = row@;
        rows.push(row);
        assert(row_views(rows@) =~= before.push(line));
        i = i + 1;
    }
    Ok(render_rows(&rows))
}

/// `value_text` may show this value as this text.
pub open spec fn shown_as<V: Fn(&MergedValue) -> String>(
    value_text: V,
    value: ValueView,
    text: Seq<char>,
) -> bool {
    exists|v: MergedValue, t: String|
        v@ == value && t@ == text && #[trigger] value_text.ensures((&v,), t)
}

/// `parse_key` may read this text so.
pub open spec fn read_as<P: Fn(&str) -> Result<MetricText, String>>(
    parse_key: P,
    key: MetricKeyView,
    text: KeyTextView,
) -> bool {
    match text {
        KeyTextView::Structured => !is_metric_text(key),
        KeyTextView::Parsed(metric) => is_metric_text(key) && exists|s: &str, m: MetricText|
            s@ == key.family && m@ == metric && #[trigger] parse_key.ensures((s,), Ok(m)),
        KeyTextView::Refused(words) => is_metric_text(key) && exists|s: &str, w: String|
            s@ == key.family && w@ == words && #[trigger] parse_key.ensures((s,), Err(w)),
    }
}

/// The rows that a merge comes to, in the order of their keys.
pub open spec fn rows_in_order(known: Map<EntryKeyView, MetaView>) -> Seq<
    (EntryKeyView, MetaView),
> {
    sorted_rows::<EntryKey, MetaView>(known)
}

/// Finds out what there is to know about a row before it is written.
fn row_text<V: Fn(&MergedValue) -> String, P: Fn(&str) -> Result<MetricText, String>>(
    key: &EntryKey,
    meta: &EntryMeta,
    value_text: &V,
    parse_key: &P,
) -> (r: RowText)
    requires
        forall|v: &MergedValue| #[trigger] value_text.requires((v,)),
        forall|s: &str| #[trigger] parse_key.requires((s,)),
    ensures
        shown_as(*value_text, meta@.value, r@.value),
        read_as(*parse_key, key@.metric, r@.key),
{
    let value: String = value_text(&meta.value);
    assert(shown_as(*value_text, meta@.value, value@));
    let plain: bool = !key.metric.sample.as_str().is_empty()
        || !key.metric.labels.as_str().is_empty();
    if plain {
        return RowText { value, key: KeyText::Structured };
    }
    match parse_key(key.metric.family.as_str()) {
        Ok(metric) => RowText { value, key: KeyText::Parsed(metric) },
        Err(words) => RowText { value, key: KeyText::Refused(words) },
    }
}

/// The metric files of a directory as Prometheus text. `value_text` adds up a
/// merged value and shows the double it comes to; `parse_key` reads a metric from
/// JSON text.
pub fn aggregate_dir_to_prometheus_text<
    V: Fn(&MergedValue) -> String,
    P: Fn(&str) -> Result<MetricText, String>,
>(files: &Vec<MetricFile>, value_text: V, parse_key: P) -> (r: Result<String, MmapError>)
    requires
        forall|v: &MergedValue| #[trigger] value_text.requires((v,)),
        forall|s: &str| #[trigger] parse_key.requires((s,)),
    ensures
        match merged_files(files@) {
            Err(e) => r == Err::<String, MmapError>(e),
            Ok(known) => {
                let rows = rows_in_order(known);
                exists|texts: Seq<RowTextView>|
                    {
                        &&& texts.len() == rows.len()
                        &&& forall|i: int|
                            0 <= i < rows.len() ==> shown_as(
                                value_text,
                                rows[i].1.value,
                                (#[trigger] texts[i]).value,
                            ) && read_as(parse_key, rows[i].0.metric, texts[i].key)
                        &&& match #[trigger] rows_of(rows, texts, rows.len() as int) {
                            Ok(lines) => r is Ok && r.unwrap()@ == rendered(lines),
                            Err(words) => r is Err && says(r->Err_0, words),
                        }
                    }
            },
        },
{
    let table = match merge_files(files) {
        Ok(table) => table,
        Err(e) => return Err(e),
    };
    let mut texts: Vec<RowText> = Vec::new();
    let mut i: usize = 0;
    while i < table.len()
        invariant
            i <= table@.len(),
            texts@.len() == i,
            forall|v: &MergedValue| #[trigger] value_text.requires((v,)),
            forall|s: &str| #[trigger] parse_key.requires((s,)),
            forall|k: int|
                0 <= k < i ==> shown_as(
                    value_text,
                    table@[k].1.value,
                    (#[trigger] texts@[k])@.value,
                ) && read_as(parse_key, table@[k].0.metric, texts@[k]@.key),
        decreases table@.len() - i,
    {
        texts.push(row_text(table.key(i), table.value(i), &value_text, &parse_key));
        i = i + 1;
    }
    proof {
        lemma_sorted_rows::<EntryKey, MetaView>(table@);
        assert(rows_in_order(row_map(table@)) == table@);
        let views = row_texts(texts@);
        assert forall|k: int| 0 <= k < table@.len() implies shown_as(
            value_text,
            table@[k].1.value,
            (#[trigger] views[k]).value,
        ) && read_as(parse_key, table@[k].0.metric, views[k].key) by {
            assert(views[k] == texts@[k]@);
        }
    }
    render(&table, &texts)
}

/// Types and modes have the names by which Prometheus and file names know them.
pub proof fn law_names_of_types_and_modes()
    ensures
        type_text(MetricType::Counter) == "counter"@,
        type_text(MetricType::Gauge) == "gauge"@,
        type_text(MetricType::Histogram) == "histogram"@,
        type_text(MetricType::Summary) == "summary"@,
        mode_text(MultiprocessMode::Min) == "min"@,
        mode_text(MultiprocessMode::Max) == "max"@,
        mode_text(MultiprocessMode::Livesum) == "livesum"@,
        mode_text(MultiprocessMode::All) == "all"@,
        mode_text(MultiprocessMode::Liveall) == "liveall"@,
{
}

/// The first metric file of a listing whose name cannot be read ends the search, with the
/// words in which it is refused; if there is none, every metric file is found.
pub proof fn law_first_refusal(listing: Seq<DirEntry>, k: int, n: int)
    requires
        0 <= k <= n <= listing.len(),
        forall|i: int|
            0 <= i < k && is_metric_entry(#[trigger] listing[i]) ==> name_params(
                listing[i].name@,
                listing[i].shown@,
            ) is Ok,
    ensures
        discovered(listing, k) is Ok,
        k < n && is_metric_entry(listing[k]) && name_params(
            listing[k].name@,
            listing[k].shown@,
        ) is Err ==> discovered(listing, n) == Err::<Map<Seq<u8>, FileParamsView>, Seq<char>>(
            name_params(listing[k].name@, listing[k].shown@)->Err_0,
        ),
    decreases k,
{
    if k > 0 {
        law_first_refusal(listing, k - 1, k - 1);
        assert(is_metric_entry(listing[k - 1]) ==> name_params(
            listing[k - 1].name@,
            listing[k - 1].shown@,
        ) is Ok);
    }
    if k < n && discovered(listing, k + 1) is Err {
        lemma_discovered_error(listing, k + 1, n);
    }
}

/// Readers pass over a file exactly if it is shorter than eight bytes or of another version
/// than two.
pub proof fn law_passed_over(map: Seq<u8>)
    ensures
        passed_over(map) <==> map.len() < 8 || native_u32(map.subrange(4, 8)) != 2,
{
}

/// What the name of each file says, with its bytes.
pub open spec fn file_views(files: Seq<MetricFile>) -> Seq<(FileParamsView, Seq<u8>)> {
    files.map_values(|file: MetricFile| (file.params@, file.bytes@))
}

/// Files of version two whose headers claim no more than there is are merged one after
/// another. The first file whose header claims more is the refusal of them all.
pub proof fn law_merged_files(files: Seq<MetricFile>, k: int)
    requires
        0 <= k <= files.len(),
        forall|i: int|
            0 <= i < k ==> {
                let map = (#[trigger] files[i]).bytes@;
                &&& map.len() >= 8
                &&& native_u32(map.subrange(4, 8)) == 2
                &&& native_u32(map.subrange(0, 4)) <= map.len()
            },
    ensures
        merged_files(files.take(k)) == Ok::<Map<EntryKeyView, MetaView>, MmapError>(
            known_after(file_views(files.take(k))),
        ),
        k < files.len() && files[k].bytes@.len() >= 8 && native_u32(
            files[k].bytes@.subrange(4, 8),
        ) == 2 && native_u32(files[k].bytes@.subrange(0, 4)) > files[k].bytes@.len()
            ==> merged_files(files) == Err::<Map<EntryKeyView, MetaView>, MmapError>(
            MmapError::InvalidUsed {
                used: native_u32(files[k].bytes@.subrange(0, 4)) as usize,
                len: files[k].bytes@.len() as usize,
            },
        ),
    decreases k,
{
    let head = files.take(k);
    if k > 0 {
        law_merged_files(files, k - 1);
        assert(head.drop_last() =~= files.take(k - 1));
        assert(head.last() == files[k - 1]);
        assert(file_views(head).drop_last() =~= file_views(files.take(k - 1)));
        assert(file_views(head).last() == (files[k - 1].params@, files[k - 1].bytes@));
    } else {
        assert(head =~= Seq::<MetricFile>::empty());
        assert(file_views(head) =~= Seq::<(FileParamsView, Seq<u8>)>::empty());
    }
    if k < files.len() {
        let more = files.take(k + 1);
        assert(more.drop_last() =~= head);
        assert(more.last() == files[k]);
        if merged_files(more) is Err {
            lemma_merged_error(files, k + 1);
        }
    }
}

/// A file that readers pass over might as well not be among those that are merged.
pub proof fn law_passed_over_left_out(files: Seq<MetricFile>, k: int)
    requires
        0 <= k < files.len(),
        files[k].bytes@.len() < 8 || native_u32(files[k].bytes@.subrange(4, 8)) != 2,
    ensures
        merged_files(files) == merged_files(files.remove(k)),
    decreases files.len(),
{
    if k == files.len() - 1 {
        assert(files.remove(k) =~= files.drop_last());
    } else {
        let init = files.drop_last();
        law_passed_over_left_out(init, k);
        assert(files.remove(k).drop_last() =~= init.remove(k));
        assert(files.remove(k).last() == files.last());
    }
}

/// The labels of a metric written as JSON text stand in braces as they are given, not
/// sorted: each as its name, an equals sign and its escaped value in double quotes, with
/// commas between them. A process stands last, as it is. Without both there are no braces.
pub proof fn law_label_block(
    labels: Seq<(Seq<char>, Seq<char>)>,
    name: Seq<char>,
    value: Seq<char>,
    pid: Seq<char>,
)
    ensures
        label_block(Seq::empty(), None) == Seq::<char>::empty(),
        label_block(labels.push((name, value)), None) == (if labels.len() == 0 {
            seq!['{']
        } else {
            label_block(labels, None).drop_last() + seq![',']
        }) + name + seq!['=', '"'] + escape_text(value) + seq!['"', '}'],
        label_block(labels, Some(pid)) == (if labels.len() == 0 {
            seq!['{']
        } else {
            label_block(labels, None).drop_last() + seq![',']
        }) + seq!['p', 'i', 'd', '=', '"'] + pid + seq!['"', '}'],
{
    reveal_strlit("pid=\"");
    let more = labels.push((name, value));
    assert(more.drop_last() =~= labels);
    assert("pid=\""@ =~= seq!['p', 'i', 'd', '=', '"']);
    if labels.len() == 0 {
        assert(label_block(more, None) =~= seq!['{'] + name + seq!['=', '"'] + escape_text(value)
            + seq!['"', '}']);
        assert(label_block(labels, Some(pid)) =~= seq!['{'] + seq!['p', 'i', 'd', '=', '"'] + pid
            + seq!['"', '}']);
    } else {
        assert(label_block(labels, None).drop_last() =~= seq!['{'] + joined_labels(labels));
        assert(label_block(more, None) =~= label_block(labels, None).drop_last() + seq![','] + name
            + seq!['=', '"'] + escape_text(value) + seq!['"', '}']);
        assert(label_block(labels, Some(pid)) =~= label_block(labels, None).drop_last() + seq![',']
            + seq!['p', 'i', 'd', '=', '"'] + pid + seq!['"', '}']);
    }
}

/// A row is written under its own names, or under those of the metric that its key holds
/// as JSON text; a metric with more or fewer values than labels is refused, and so is a
/// text that is no metric, in the words of that refusal.
pub proof fn law_row_of(key: EntryKeyView, meta: MetaView, value: Seq<char>, text: KeyTextView)
    ensures
        ({
            let row = row_of(key, meta, RowTextView { value, key: text });
            match text {
                KeyTextView::Structured => {
                    &&& row is Ok
                    &&& row->Ok_0.family == key.metric.family
                    &&& row->Ok_0.metric_type == meta.metric_type
                    &&& row->Ok_0.series == sample_text(
                        key.metric.sample,
                        key.metric.labels,
                        key.pid,
                    )
                    &&& row->Ok_0.value == value
                },
                KeyTextView::Parsed(metric) => if metric.labels.len() == metric.values.len() {
                    &&& row is Ok
                    &&& row->Ok_0.family == metric.family_name
                    &&& row->Ok_0.metric_type == meta.metric_type
                    &&& row->Ok_0.value == value
                    &&& exists|labels: Seq<(Seq<char>, Seq<char>)>|
                        {
                            &&& labels.len() == metric.labels.len()
                            &&& forall|i: int|
                                0 <= i < labels.len() ==> #[trigger] labels[i] == (
                                    metric.labels[i],
                                    metric.values[i],
                                )
                            &&& row->Ok_0.series == metric.metric_name + #[trigger] label_block(
                                labels,
                                key.pid,
                            )
                        }
                } else {
                    row == Err::<RowView, Seq<char>>("labels and values must have same length"@)
                },
                KeyTextView::Refused(words) => row == Err::<RowView, Seq<char>>(words),
            }
        }),
{
    if let KeyTextView::Parsed(metric) = text {
        if metric.labels.len() == metric.values.len() {
            let labels = text_labels(metric);
            assert(labels.len() == metric.labels.len());
            assert(row_of(key, meta, RowTextView { value, key: text })->Ok_0.series
                == metric.metric_name + label_block(labels, key.pid));
        }
    }
}

/// Rows are written one by one in their order, and the first that is refused is the
/// refusal of them all.
pub proof fn law_rows_of(
    rows: Seq<(EntryKeyView, MetaView)>,
    texts: Seq<RowTextView>,
    k: int,
    n: int,
)
    requires
        0 <= k <= n <= rows.len(),
        rows.len() == texts.len(),
        forall|i: int|
            0 <= i < k ==> row_of(rows[i].0, rows[i].1, #[trigger] texts[i]) is Ok,
    ensures
        rows_of(rows, texts, k) is Ok,
        rows_of(rows, texts, k)->Ok_0.len() == k,
        forall|i: int|
            0 <= i < k ==> Ok::<RowView, Seq<char>>(
                #[trigger] rows_of(rows, texts, k)->Ok_0[i],
            ) == row_of(rows[i].0, rows[i].1, texts[i]),
        k < n && row_of(rows[k].0, rows[k].1, texts[k]) is Err ==> rows_of(rows, texts, n) == Err::<
            Seq<RowView>,
            Seq<char>,
        >(row_of(rows[k].0, rows[k].1, texts[k])->Err_0),
    decreases k,
{
    if k > 0 {
        law_rows_of(rows, texts, k - 1, k - 1);
        assert(row_of(rows[k - 1].0, rows[k - 1].1, texts[k - 1]) is Ok);
    }
    if k < n && rows_of(rows, texts, k + 1) is Err {
        lemma_rows_error(rows, texts, k + 1, n);
    }
}

/// A key is taken for JSON text exactly if it has neither a sample nor labels.
pub proof fn law_metric_text(key: MetricKeyView)
    ensures
        is_metric_text(key) <==> key.sample == Seq::<char>::empty() && key.labels
            == Seq::<char>::empty(),
{
    if is_metric_text(key) {
        assert(key.sample =~= Seq::<char>::empty());
        assert(key.labels =~= Seq::<char>::empty());
    }
}

/// A metric written as JSON text says what its fields hold; null stands for no text.
pub proof fn law_metric_text_says_its_fields(metric: MetricText, i: int)
    ensures
        metric@.family_name == metric.family_name@,
        metric@.metric_name == metric.metric_name@,
        metric@.labels.len() == metric.labels@.len(),
        metric@.values.len() == metric.values@.len(),
        0 <= i < metric.labels@.len() ==> metric@.labels[i] == metric.labels@[i]@,
        0 <= i < metric.values@.len() ==> metric@.values[i] == match metric.values@[i] {
            LabelValue::Null => Seq::<char>::empty(),
            LabelValue::Text(s) => s@,
            LabelValue::Other(s) => s@,
        },
{
}

/// What is to be written of a row says what its fields hold.
pub proof fn law_row_text_says_its_fields(rows: Seq<RowText>, i: int)
    requires
        0 <= i < rows.len(),
    ensures
        row_texts(rows).len() == rows.len(),
        row_texts(rows)[i].value == rows[i].value@,
        match rows[i].key {
            KeyText::Structured => row_texts(rows)[i].key is Structured,
            KeyText::Parsed(metric) => row_texts(rows)[i].key == KeyTextView::Parsed(metric@),
            KeyText::Refused(words) => row_texts(rows)[i].key == KeyTextView::Refused(words@),
        },
{
}

/// A type is known by its name alone and a mode by its own: any other text is refused, in
/// words that quote it.
pub proof fn law_types_and_modes_by_name(
    s: &str,
    metric_type: Result<MetricType, MmapError>,
    mode: Result<MultiprocessMode, MmapError>,
)
    requires
        call_ensures(MetricType::from_file_prefix, (s,), metric_type),
        call_ensures(MultiprocessMode::from_file_part, (s,), mode),
    ensures
        s@ == "counter"@ <==> metric_type == Ok::<MetricType, MmapError>(MetricType::Counter),
        s@ == "gauge"@ <==> metric_type == Ok::<MetricType, MmapError>(MetricType::Gauge),
        s@ == "histogram"@ <==> metric_type == Ok::<MetricType, MmapError>(MetricType::Histogram),
        s@ == "summary"@ <==> metric_type == Ok::<MetricType, MmapError>(MetricType::Summary),
        metric_type is Err ==> says(metric_type->Err_0, "unknown metric type '"@ + s@ + "'"@),
        s@ == "min"@ <==> mode == Ok::<MultiprocessMode, MmapError>(MultiprocessMode::Min),
        s@ == "max"@ <==> mode == Ok::<MultiprocessMode, MmapError>(MultiprocessMode::Max),
        s@ == "livesum"@ <==> mode == Ok::<MultiprocessMode, MmapError>(MultiprocessMode::Livesum),
        s@ == "all"@ <==> mode == Ok::<MultiprocessMode, MmapError>(MultiprocessMode::All),
        s@ == "liveall"@ <==> mode == Ok::<MultiprocessMode, MmapError>(MultiprocessMode::Liveall),
        mode is Err ==> says(mode->Err_0, "unknown multiprocess mode '"@ + s@ + "'"@),
{
    law_names_of_types_and_modes();
    assert forall|a: MetricType, b: MetricType| #[trigger] type_text(a) == #[trigger] type_text(
        b,
    ) implies a == b by {
        law_type_text_injective(a, b);
    }
    assert forall|a: MultiprocessMode, b: MultiprocessMode| #[trigger] mode_text(a)
        == #[trigger] mode_text(b) implies a == b by {
        law_mode_text_injective(a, b);
    }
    if metric_type is Err {
        assert(s@ != type_text(MetricType::Counter) && s@ != type_text(MetricType::Gauge));
        assert(s@ != type_text(MetricType::Histogram) && s@ != type_text(MetricType::Summary));
    }
    if mode is Err {
        assert(s@ != mode_text(MultiprocessMode::Min) && s@ != mode_text(MultiprocessMode::Max));
        assert(s@ != mode_text(MultiprocessMode::Livesum) && s@ != mode_text(
            MultiprocessMode::All,
        ));
        assert(s@ != mode_text(MultiprocessMode::Liveall));
    }
}

} // verus!
