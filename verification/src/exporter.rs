//! A directory of metric files as a scrape sees it, with what earlier scrapes
//! found kept in mind.

use crate::aggregate::{
    merged_files, passed_over, rows_in_order, rows_of, says, shown_as,
    MetricFile, MetricType, RowTextView,
};
use crate::error::MmapError;
use crate::file_name::{
    is_metric_entry, is_metric_file, lemma_params_by_name, name_params, parse_file_params,
    DirEntry, FileName, FileParams, FileParamsView,
};
use crate::key_table::{
    in_order, lemma_row_map, lemma_sorted_rows, lemma_update_row, row_map, row_with, KeyTable,
    TableKey,
};
use crate::merge::{
    merge_entries, merged_entries, places_fit, EntryKey, EntryKeyView, EntryMeta, MergedValue,
    MetaView,
};
use crate::metric_key::MetricKeyView;
use crate::mmap_file::{
    appended, complete, contents, entries_of, entry_for, key_fits, law_append,
    law_append_seen_whole, law_update, lemma_position_bounds, positions_of, published,
    FILE_FORMAT_VERSION, HEADER_SIZE,
};
use crate::native::{
    law_native_u32, law_native_u64, native_u32, native_u32_bytes, native_u64_bytes, overwrite,
    read_u32,
};
use crate::publish::{visible, MapView};
use crate::raw_entry::{law_entry_roundtrip, lemma_decoded_entry};
use crate::scan::{
    claimed_used, current_used, found, lemma_scan_bounds, lemma_scan_extend, lemma_scan_same,
    lemma_scan_truncate, lemma_scan_values, raw_version, scan, scan_entries, used_error, used_of,
    used_overruns, CachedEntry, FoundView, ScanStop,
};
use crate::render::{
    append_sample, law_family_announced_once, render_rows, rendered, row_views, sample_text, Row,
    RowView,
};
use crate::text::{copy_bytes, decimal, decimal_text, lemma_text_order, texts};
use vstd::prelude::*;
use vstd::string::StringExecFns;

verus! {

/// What tells one file from another under the same name.
#[derive(Debug, Clone, Copy, PartialEq, Eq, Structural)]
pub struct FileIdentity {
    pub dev: u64,
    pub ino: u64,
}

/// Whether two identities are the same.
fn same_identity(a: Option<FileIdentity>, b: Option<FileIdentity>) -> (r: bool)
    ensures
        r == (a == b),
{
    match (a, b) {
        (None, None) => true,
        (Some(a), Some(b)) => a == b,
        _ => false,
    }
}

/// What is kept in mind of a file.
#[verifier::ext_equal]
pub struct CachedFileView {
    pub params: FileParamsView,
    pub identity: Option<FileIdentity>,
    pub map_len: usize,
    pub parsed_used: int,
    pub entries: Seq<FoundView>,
    pub active: bool,
}

/// What is kept in mind of a file: the entries of its first `parsed_used` bytes.
#[derive(Debug)]
pub struct CachedFile {
    params: FileParams,
    identity: Option<FileIdentity>,
    map_len: usize,
    parsed_used: usize,
    entries: Vec<CachedEntry>,
    active: bool,
}

impl View for CachedFile {
    type V = CachedFileView;

    closed spec fn view(&self) -> CachedFileView {
        CachedFileView {
            params: self.params@,
            identity: self.identity,
            map_len: self.map_len,
            parsed_used: self.parsed_used as int,
            entries: found(self.entries@),
            active: self.active,
        }
    }
}

/// A file of which nothing is known yet.
pub open spec fn unread_file(
    params: FileParamsView,
    identity: Option<FileIdentity>,
    map_len: usize,
) -> CachedFileView {
    CachedFileView {
        params,
        identity,
        map_len,
        parsed_used: HEADER_SIZE as int,
        entries: Seq::empty(),
        active: false,
    }
}

/// The file has another length, or is another file, than when it was mapped.
pub open spec fn is_stale(
    file: CachedFileView,
    len: usize,
    identity: Option<FileIdentity>,
) -> bool {
    len != file.map_len || identity != file.identity
}

/// A file after a look at its length and identity.
pub open spec fn checked(
    file: CachedFileView,
    len: usize,
    identity: Option<FileIdentity>,
) -> CachedFileView {
    if is_stale(file, len, identity) {
        CachedFileView {
            map_len: len,
            identity,
            parsed_used: HEADER_SIZE as int,
            entries: Seq::empty(),
            ..file
        }
    } else {
        file
    }
}

/// Where the next walk over a file starts: behind what is parsed, or at the first
/// entry if the file has become shorter.
pub open spec fn walk_start(file: CachedFileView, used: int) -> int {
    if used < file.parsed_used || file.parsed_used < HEADER_SIZE {
        HEADER_SIZE as int
    } else {
        file.parsed_used
    }
}

/// The entries that the next walk adds to.
pub open spec fn kept_entries(file: CachedFileView, used: int) -> Seq<FoundView> {
    if used < file.parsed_used {
        Seq::empty()
    } else {
        file.entries
    }
}

/// A file after a walk over the entries that have come since, and the refusal if
/// it is refused.
pub open spec fn refreshed(file: CachedFileView, map: Seq<u8>) -> (
    CachedFileView,
    Option<MmapError>,
) {
    let used = used_of(map);
    if passed_over(map) {
        (
            CachedFileView {
                active: false,
                entries: Seq::empty(),
                parsed_used: HEADER_SIZE as int,
                ..file
            },
            None,
        )
    } else if used_overruns(map) {
        (CachedFileView { active: true, ..file }, Some(used_error(map)))
    } else {
        let walk = scan(map, walk_start(file, used), used);
        let entries = kept_entries(file, used) + walk.entries;
        match walk.stop {
            ScanStop::NotText(e) => (
                CachedFileView {
                    active: true,
                    entries,
                    parsed_used: if used < file.parsed_used {
                        HEADER_SIZE as int
                    } else {
                        file.parsed_used
                    },
                    ..file
                },
                Some(e),
            ),
            _ => (CachedFileView { active: true, entries, parsed_used: walk.end, ..file }, None),
        }
    }
}

impl CachedFile {
    /// Reads a newly mapped file.
    pub fn open(params: FileParams, identity: Option<FileIdentity>, map: &[u8]) -> (r: Result<
        Self,
        MmapError,
    >)
        ensures
            ({
                let unread = unread_file(params@, identity, map@.len() as usize);
                match refreshed(unread, map@).1 {
                    None => r is Ok && r.unwrap()@ == refreshed(unread, map@).0 && places_fit(
                        r.unwrap()@.entries,
                    ),
                    Some(e) => r == Err::<Self, MmapError>(e),
                }
            }),
    {
        let mut file = CachedFile {
            params,
            identity,
            map_len: map.len(),
            parsed_used: HEADER_SIZE,
            entries: Vec::new(),
            active: false,
        };
        assert(file@ =~= unread_file(params@, identity, map@.len() as usize));
        match file.refresh_entries(map) {
            Ok(()) => Ok(file),
            Err(e) => Err(e),
        }
    }

    /// Takes note of the length and identity that the file has now, and says
    /// whether it must be mapped anew.
    pub fn refresh_map_if_needed(&mut self, len: usize, identity: Option<FileIdentity>) -> (r: bool)
        requires
            places_fit(old(self)@.entries),
        ensures
            r == is_stale(old(self)@, len, identity),
            final(self)@ == checked(old(self)@, len, identity),
            places_fit(final(self)@.entries),
    {
        let ghost before = self@;
        if len != self.map_len || !same_identity(identity, self.identity) {
            self.map_len = len;
            self.identity = identity;
            self.parsed_used = HEADER_SIZE;
            self.entries.clear();
            assert(self@ =~= checked(before, len, identity));
            true
        } else {
            false
        }
    }

    /// Walks over the entries that have come since the last walk.
    pub fn refresh_entries(&mut self, map: &[u8]) -> (r: Result<(), MmapError>)
        requires
            places_fit(old(self)@.entries),
        ensures
            final(self)@ == refreshed(old(self)@, map@).0,
            places_fit(final(self)@.entries),
            r == match refreshed(old(self)@, map@).1 {
                None => Ok::<(), MmapError>(()),
                Some(e) => Err::<(), MmapError>(e),
            },
    {
        let ghost before = self@;
        if map.len() < HEADER_SIZE || read_u32(map, 4) != FILE_FORMAT_VERSION {
            self.active = false;
            self.entries.clear();
            self.parsed_used = HEADER_SIZE;
            assert(self@ =~= refreshed(before, map@).0);
            return Ok(());
        }
        self.active = true;
        let used: usize = match current_used(map) {
            Ok(used) => used,
            Err(e) => {
                assert(self@ =~= refreshed(before, map@).0);
                return Err(e);
            },
        };
        if used < self.parsed_used {
            self.entries.clear();
            self.parsed_used = HEADER_SIZE;
        }
        assert(found(self.entries@) =~= kept_entries(before, used as int));
        let start: usize = if self.parsed_used < HEADER_SIZE {
            HEADER_SIZE
        } else {
            self.parsed_used
        };
        let (end, stop) = scan_entries(map, start, used, &mut self.entries);
        proof {
            let walk = scan(map@, start as int, used as int);
            lemma_scan_bounds(map@, start as int, used as int);
            assert(places_fit(kept_entries(before, used as int) + walk.entries)) by {
                let kept = kept_entries(before, used as int);
                let both = kept + walk.entries;
                assert forall|i: int| 0 <= i < both.len() implies 0 <= (#[trigger] both[i]).value_at
                    && both[i].value_at + 8 <= usize::MAX by {
                    if i < kept.len() {
                        assert(both[i] == kept[i]);
                    } else {
                        assert(both[i] == walk.entries[i - kept.len()]);
                    }
                }
            }
        }
        match stop {
            ScanStop::NotText(e) => {
                assert(self@ =~= refreshed(before, map@).0);
                Err(e)
            },
            _ => {
                self.parsed_used = end;
                assert(self@ =~= refreshed(before, map@).0);
                Ok(())
            },
        }
    }

    /// Takes note of what the name of the file says.
    fn set_params(&mut self, params: FileParams)
        ensures
            final(self)@ == (CachedFileView { params: params@, ..old(self)@ }),
    {
        self.params = params;
    }
}

/// What is kept in mind of a file is what a walk over its parsed bytes finds.
pub open spec fn walked(file: CachedFileView, map: Seq<u8>) -> bool {
    let walk = scan(map, HEADER_SIZE as int, file.parsed_used);
    &&& HEADER_SIZE <= file.parsed_used <= map.len()
    &&& walk.stop is Done
    &&& walk.end == file.parsed_used
    &&& walk.entries == file.entries
}

/// Of a file that was just mapped, nothing is parsed and nothing is kept in mind.
pub proof fn law_unread_is_walked(
    params: FileParamsView,
    identity: Option<FileIdentity>,
    map: Seq<u8>,
)
    requires
        map.len() >= HEADER_SIZE,
    ensures
        walked(unread_file(params, identity, map.len() as usize), map),
{
    assert(scan(map, HEADER_SIZE as int, HEADER_SIZE as int).entries =~= Seq::<FoundView>::empty());
}

/// Walking on from where the last walk ended finds what a walk over the whole
/// file finds.
pub proof fn law_incremental_walk(file: CachedFileView, map: Seq<u8>)
    requires
        walked(file, map),
        !passed_over(map),
        !used_overruns(map),
        file.parsed_used <= used_of(map),
        refreshed(file, map).1 is None,
    ensures
        refreshed(file, map).0.entries == scan(map, HEADER_SIZE as int, used_of(map)).entries,
        refreshed(file, map).0.parsed_used == scan(map, HEADER_SIZE as int, used_of(map)).end,
        walked(refreshed(file, map).0, map),
{
    let used = used_of(map);
    lemma_scan_extend(map, map, HEADER_SIZE as int, file.parsed_used, used);
    lemma_scan_bounds(map, HEADER_SIZE as int, used);
    lemma_scan_truncate(map, HEADER_SIZE as int, used);
}

/// A new value for a key that a file has leaves what a reader keeps in mind of
/// the file valid.
pub proof fn law_reader_survives_update(
    file: CachedFileView,
    map: Seq<u8>,
    key: MetricKeyView,
    bits: u64,
)
    requires
        walked(file, map),
        complete(map),
        file.parsed_used <= used_of(map),
        positions_of(entries_of(map)).dom().contains(key),
    ensures
        ({
            let at = positions_of(entries_of(map))[key];
            let new_map = overwrite(map, at as int, native_u64_bytes(bits as int));
            walked(file, new_map) && file.parsed_used <= used_of(new_map)
        }),
{
    let used = used_of(map);
    let parsed = file.parsed_used;
    let at = positions_of(entries_of(map))[key] as int;
    let new_map = overwrite(map, at, native_u64_bytes(bits as int));
    law_native_u64(bits as int, Seq::empty());
    law_update(map, key, bits);
    lemma_position_bounds(map, key);
    assert(new_map.subrange(0, 4) =~= map.subrange(0, 4));
    let k = choose|i: int|
        0 <= i < entries_of(map).len() && (#[trigger] entries_of(map)[i]).key == key
            && entries_of(map)[i].value_at == at;
    lemma_scan_extend(map, map, HEADER_SIZE as int, parsed, used);
    lemma_scan_bounds(map, parsed, used);
    if k < file.entries.len() {
        assert(file.entries[k] == entries_of(map)[k]);
        lemma_scan_values(map, new_map, HEADER_SIZE as int, parsed, k);
    } else {
        assert(entries_of(map)[k] == scan(map, parsed, used).entries[k - file.entries.len()]);
        lemma_scan_same(map, new_map, HEADER_SIZE as int, parsed);
    }
}

/// A further entry leaves what a reader keeps in mind of the file valid.
pub proof fn law_reader_survives_append(
    file: CachedFileView,
    map: Seq<u8>,
    key: MetricKeyView,
    bits: u64,
)
    requires
        walked(file, map),
        complete(map),
        file.parsed_used <= used_of(map),
        key_fits(key),
        used_of(map) + entry_for(key, bits).len() <= map.len(),
        used_of(map) + entry_for(key, bits).len() <= u32::MAX,
    ensures
        walked(file, appended(map, key, bits)),
        file.parsed_used <= used_of(appended(map, key, bits)),
{
    let new_map = appended(map, key, bits);
    let new_used = used_of(map) + entry_for(key, bits).len();
    law_append(map, key, bits);
    law_entry_roundtrip(entry_for(key, bits), Seq::empty());
    law_native_u32(new_used, Seq::empty());
    lemma_scan_same(map, new_map, HEADER_SIZE as int, file.parsed_used);
    assert(new_map.subrange(0, 4) =~= native_u32_bytes(new_used));
    lemma_decoded_entry(entry_for(key, bits).bytes() + Seq::<u8>::empty());
}

/// A reader that keeps up sees what the file says: after a refresh of a complete
/// file of the current version it has all its entries.
pub proof fn law_reader_sees_contents(file: CachedFileView, map: Seq<u8>)
    requires
        walked(file, map),
        complete(map),
        raw_version(map) == FILE_FORMAT_VERSION,
        file.parsed_used <= used_of(map),
    ensures
        refreshed(file, map).1 is None,
        refreshed(file, map).0.active,
        refreshed(file, map).0.entries == entries_of(map),
        walked(refreshed(file, map).0, map),
{
    lemma_scan_extend(map, map, HEADER_SIZE as int, file.parsed_used, used_of(map));
    law_incremental_walk(file, map);
}

/// A scrape at any moment while a further entry is published finds the file in order: it
/// is not refused, and says what it said before or that and the new value.
#[verifier::spinoff_prover]
pub proof fn law_scrape_during_append(
    file: CachedFileView,
    map: MapView,
    key: MetricKeyView,
    bits: u64,
    i: int,
    seen: Seq<u8>,
)
    requires
        walked(file, map.bytes),
        complete(map.bytes),
        raw_version(map.bytes) == FILE_FORMAT_VERSION,
        file.parsed_used <= used_of(map.bytes),
        key_fits(key),
        used_of(map.bytes) + entry_for(key, bits).len() <= map.bytes.len(),
        used_of(map.bytes) + entry_for(key, bits).len() <= u32::MAX,
        map.steps.len() <= i < published(map, key, bits).steps.len(),
        visible(published(map, key, bits).steps[i], seen),
    ensures
        refreshed(file, seen).1 is None,
        refreshed(file, seen).0.active,
        refreshed(file, seen).0.entries == entries_of(seen),
        contents(seen) == contents(map.bytes) || contents(seen) == contents(map.bytes).insert(
            key,
            bits,
        ),
{
    law_append_seen_whole(map, key, bits);
    law_append(map.bytes, key, bits);
    law_native_u32(used_of(map.bytes) + entry_for(key, bits).len(), Seq::empty());
    if seen == published(map, key, bits).bytes {
        law_reader_survives_append(file, map.bytes, key, bits);
    } else {
        lemma_seen_before(map, key, bits, i, seen);
        assert(map.bytes.subrange(0, 4) =~= seen.subrange(0, 4));
        lemma_scan_same(map.bytes, seen, HEADER_SIZE as int, file.parsed_used);
    }
    law_reader_sees_contents(file, seen);
}

/// Until a further entry is published the bytes in use are seen as they were.
proof fn lemma_seen_before(map: MapView, key: MetricKeyView, bits: u64, i: int, seen: Seq<u8>)
    requires
        HEADER_SIZE <= used_of(map.bytes),
        used_of(map.bytes) + entry_for(key, bits).len() <= map.bytes.len(),
        used_of(map.bytes) + entry_for(key, bits).len() <= u32::MAX,
        map.steps.len() <= i < published(map, key, bits).steps.len(),
        visible(published(map, key, bits).steps[i], seen),
        seen != published(map, key, bits).bytes,
    ensures
        seen.len() == map.bytes.len(),
        forall|j: int| 0 <= j < used_of(map.bytes) ==> map.bytes[j] == seen[j],
{
    let steps = published(map, key, bits).steps;
    law_native_u32(used_of(map.bytes) + entry_for(key, bits).len(), Seq::empty());
    if i == map.steps.len() {
        assert(steps[i]->at == used_of(map.bytes));
    } else {
        assert(steps[map.steps.len() as int + 1] is Fence);
        assert(i == map.steps.len() + 2);
        assert(steps[i]->at == 0 && steps[i]->word && steps[i]->bytes.len() == 4);
        assert(0int % 4 == 0);
        assert(seen == steps[i]->before);
    }
}

/// The metric files among the first `n` entries of a directory whose names can be
/// read, by name.
pub open spec fn readable_files(listing: Seq<DirEntry>, n: int) -> Map<Seq<u8>, FileParamsView>
    decreases n,
{
    if n <= 0 {
        Map::empty()
    } else {
        let entry = listing[n - 1];
        let files = readable_files(listing, n - 1);
        if !is_metric_entry(entry) {
            files
        } else {
            match name_params(entry.name@, entry.shown@) {
                Ok(params) => files.insert(entry.name@, params),
                Err(_) => files,
            }
        }
    }
}

/// The metric files among the first `n` entries of a directory whose names cannot
/// be read: the number of each, and the words in which it is refused.
pub open spec fn unreadable_files(listing: Seq<DirEntry>, n: int) -> Seq<(int, Seq<char>)>
    decreases n,
{
    if n <= 0 {
        Seq::empty()
    } else {
        let entry = listing[n - 1];
        let files = unreadable_files(listing, n - 1);
        if !is_metric_entry(entry) {
            files
        } else {
            match name_params(entry.name@, entry.shown@) {
                Ok(_) => files,
                Err(words) => files.push((n - 1, words)),
            }
        }
    }
}

/// An entry of a directory that was refused.
#[derive(Debug)]
pub struct Refusal {
    pub entry: usize,
    pub error: MmapError,
}

/// These refusals are of those entries, in those words.
pub open spec fn refusals_say(refusals: Seq<Refusal>, files: Seq<(int, Seq<char>)>) -> bool {
    &&& refusals.len() == files.len()
    &&& forall|i: int|
        0 <= i < files.len() ==> (#[trigger] refusals[i]).entry == files[i].0 && says(
            refusals[i].error,
            files[i].1,
        )
}

/// Finds the metric files of a directory, in the order of their names, and those
/// that are to be skipped.
pub fn discover_metric_files(listing: &Vec<DirEntry>) -> (r: (
    KeyTable<FileName, FileParams>,
    Vec<Refusal>,
))
    ensures
        r.0.wf(),
        row_map(r.0@) == readable_files(listing@, listing@.len() as int),
        refusals_say(r.1@, unreadable_files(listing@, listing@.len() as int)),
{
    let mut files: KeyTable<FileName, FileParams> = KeyTable::new();
    let mut refusals: Vec<Refusal> = Vec::new();
    let mut i: usize = 0;
    while i < listing.len()
        invariant
            i <= listing@.len(),
            files.wf(),
            row_map(files@) == readable_files(listing@, i as int),
            refusals_say(refusals@, unreadable_files(listing@, i as int)),
        decreases listing@.len() - i,
    {
        let entry = &listing[i];
        if is_metric_file(entry.name.as_slice()) && entry.is_file {
            match parse_file_params(entry.name.as_slice(), entry.shown.as_str()) {
                Ok(params) => {
                    let name = FileName { bytes: copy_bytes(entry.name.as_slice()) };
                    files.insert(name, params);
                },
                Err(e) => {
                    refusals.push(Refusal { entry: i, error: e });
                },
            }
        }
        i = i + 1;
    }
    (files, refusals)
}

/// What to do next about a file that was found.
#[derive(Debug, Clone, Copy, PartialEq, Eq, Structural)]
pub enum RefreshStep {
    /// It is new: open it.
    Open,
    /// Another file has its name: open that.
    Reopen,
    /// It is known: look at its length and identity.
    Check,
}

/// What became of that.
#[derive(Debug)]
pub enum FileEvent<'a> {
    /// The file was opened and mapped.
    Opened { identity: Option<FileIdentity>, map: &'a [u8] },
    /// The file has this length and identity.
    Checked { len: usize, identity: Option<FileIdentity> },
    /// The file could not be reached.
    Failed,
}

/// What became of a file, in what it says.
pub enum EventView {
    Opened { identity: Option<FileIdentity>, map: Seq<u8> },
    Checked { len: usize, identity: Option<FileIdentity> },
    Failed,
}

/// What an event says.
pub open spec fn event_view(event: FileEvent) -> EventView {
    match event {
        FileEvent::Opened { identity, map } => EventView::Opened { identity, map: map@ },
        FileEvent::Checked { len, identity } => EventView::Checked { len, identity },
        FileEvent::Failed => EventView::Failed,
    }
}

/// What a list of events says.
pub open spec fn event_views(events: Seq<FileEvent>) -> Seq<EventView> {
    events.map_values(|event: FileEvent| event_view(event))
}

/// What is kept in mind of a file after an event, if the file is not skipped.
pub open spec fn file_after(
    files: Map<Seq<u8>, CachedFileView>,
    params: FileParamsView,
    event: EventView,
) -> Option<CachedFileView> {
    match event {
        EventView::Opened { identity, map } => {
            let (file, refusal) = refreshed(
                unread_file(params, identity, map.len() as usize),
                map,
            );
            match refusal {
                None => Some(file),
                Some(_) => None,
            }
        },
        EventView::Checked { len, identity } => if files.dom().contains(params.name) {
            Some(checked(CachedFileView { params, ..files[params.name] }, len, identity))
        } else {
            None
        },
        EventView::Failed => None,
    }
}

/// The refusal of a file that is skipped after an event, if it has one.
pub open spec fn refusal_after(params: FileParamsView, event: EventView) -> Option<MmapError> {
    match event {
        EventView::Opened { identity, map } => refreshed(
            unread_file(params, identity, map.len() as usize),
            map,
        ).1,
        _ => None,
    }
}

/// The file must be mapped anew after an event.
pub open spec fn stale_after(
    files: Map<Seq<u8>, CachedFileView>,
    params: FileParamsView,
    event: EventView,
) -> bool {
    match event {
        EventView::Checked { len, identity } => files.dom().contains(params.name) && is_stale(
            files[params.name],
            len,
            identity,
        ),
        _ => false,
    }
}

/// A pass over the files that were found: what is kept in mind, what was skipped, and
/// what must be mapped anew.
pub struct PassView {
    pub files: Map<Seq<u8>, CachedFileView>,
    pub failures: Seq<(Seq<u8>, Option<MmapError>)>,
    pub stale: Seq<Seq<u8>>,
}

/// A pass over the first `n` files.
pub open spec fn refresh_pass(
    files: Map<Seq<u8>, CachedFileView>,
    params: Seq<FileParamsView>,
    events: Seq<EventView>,
    n: int,
) -> PassView
    decreases n,
{
    if n <= 0 {
        PassView { files, failures: Seq::empty(), stale: Seq::empty() }
    } else {
        let so_far = refresh_pass(files, params, events, n - 1);
        let file = params[n - 1];
        let event = events[n - 1];
        match file_after(so_far.files, file, event) {
            Some(after) => PassView {
                files: so_far.files.insert(file.name, after),
                failures: so_far.failures,
                stale: if stale_after(so_far.files, file, event) {
                    so_far.stale.push(file.name)
                } else {
                    so_far.stale
                },
            },
            None => PassView {
                files: so_far.files.remove(file.name),
                failures: so_far.failures.push((file.name, refusal_after(file, event))),
                stale: so_far.stale,
            },
        }
    }
}

/// What the names of the files say that were found.
pub open spec fn found_params(found: Seq<(Seq<u8>, FileParamsView)>) -> Seq<FileParamsView> {
    found.map_values(|row: (Seq<u8>, FileParamsView)| row.1)
}

/// The names of a list of files.
pub open spec fn name_views(names: Seq<FileName>) -> Seq<Seq<u8>> {
    names.map_values(|name: FileName| name@)
}

/// A mapped file, or one that could not be mapped.
#[derive(Debug)]
pub enum FileMap<'a> {
    Mapped(&'a [u8]),
    Failed,
}

/// The bytes of mapped files.
pub open spec fn map_views(maps: Seq<FileMap>) -> Seq<Option<Seq<u8>>> {
    maps.map_values(
        |m: FileMap|
            match m {
                FileMap::Mapped(bytes) => Some(bytes@),
                FileMap::Failed => None,
            },
    )
}

/// A file that a scrape skipped. One that could not be mapped has no refusal of
/// its own.
#[derive(Debug)]
pub struct FileFailure {
    pub name: Vec<u8>,
    pub error: Option<MmapError>,
}

/// What a list of failures says.
pub open spec fn failure_views(failures: Seq<FileFailure>) -> Seq<(Seq<u8>, Option<MmapError>)> {
    failures.map_values(|f: FileFailure| (f.name@, f.error))
}

/// What a scrape found: the files that stay in mind, what is known of every key,
/// and the files that were skipped.
pub struct ScrapeView {
    pub files: Seq<(Seq<u8>, CachedFileView)>,
    pub known: Map<EntryKeyView, MetaView>,
    pub failures: Seq<(Seq<u8>, Option<MmapError>)>,
}

/// A scrape of the first `n` files.
pub open spec fn scraped(
    files: Seq<(Seq<u8>, CachedFileView)>,
    maps: Seq<Option<Seq<u8>>>,
    n: int,
) -> ScrapeView
    decreases n,
{
    if n <= 0 {
        ScrapeView { files: Seq::empty(), known: Map::empty(), failures: Seq::empty() }
    } else {
        let so_far = scraped(files, maps, n - 1);
        let name = files[n - 1].0;
        match maps[n - 1] {
            None => ScrapeView { failures: so_far.failures.push((name, None)), ..so_far },
            Some(map) => {
                let (file, refusal) = refreshed(files[n - 1].1, map);
                match refusal {
                    Some(e) => ScrapeView {
                        failures: so_far.failures.push((name, Some(e))),
                        ..so_far
                    },
                    None => ScrapeView {
                        files: so_far.files.push((name, file)),
                        known: if file.active {
                            merged_entries(
                                so_far.known,
                                file.params,
                                map,
                                used_of(map),
                                file.entries,
                            )
                        } else {
                            so_far.known
                        },
                        failures: so_far.failures,
                    },
                }
            },
        }
    }
}

/// The line of a merged row.
pub open spec fn export_row(key: EntryKeyView, meta: MetaView, value: Seq<char>) -> RowView {
    RowView {
        family: key.metric.family,
        metric_type: meta.metric_type,
        series: sample_text(key.metric.sample, key.metric.labels, key.pid),
        value,
    }
}

/// The lines of merged rows with these values.
pub open spec fn export_rows(
    rows: Seq<(EntryKeyView, MetaView)>,
    values: Seq<Seq<char>>,
) -> Seq<RowView> {
    Seq::new(rows.len(), |i: int| export_row(rows[i].0, rows[i].1, values[i]))
}

/// The lines that say how many files were skipped.
pub open spec fn errors_text(file_errors: int) -> Seq<char> {
    "# HELP prometheus_mmap_exporter_file_errors Number of metric files skipped during this scrape\n"@
        + "# TYPE prometheus_mmap_exporter_file_errors gauge\n"@
        + "prometheus_mmap_exporter_file_errors "@ + decimal(file_errors as nat) + seq!['\n']
}

/// The text of a scrape that knows this, shows these values and skipped so many files.
pub open spec fn scrape_text(
    known: Map<EntryKeyView, MetaView>,
    values: Seq<Seq<char>>,
    file_errors: int,
) -> Seq<char> {
    rendered(export_rows(rows_in_order(known), values)) + errors_text(file_errors)
}

/// Writes out merged rows, with these values, and how many files were skipped.
pub fn render(
    table: &KeyTable<EntryKey, EntryMeta>,
    values: &Vec<String>,
    file_errors: usize,
) -> (r: String)
    requires
        values@.len() == table@.len(),
    ensures
        r@ == rendered(export_rows(table@, texts(values@))) + errors_text(file_errors as int),
{
    let ghost shown = texts(values@);
    let mut rows: Vec<Row> = Vec::new();
    let mut i: usize = 0;
    while i < values.len()
        invariant
            i <= values@.len(),
            values@.len() == table@.len(),
            shown == texts(values@),
            rows@.len() == i,
            forall|k: int|
                0 <= k < i ==> (#[trigger] rows@[k])@ == export_row(
                    table@[k].0,
                    table@[k].1,
                    shown[k],
                ),
        decreases values@.len() - i,
    {
        let key = table.key(i);
        let meta = table.value(i);
        let mut series: String = String::new();
        let pid: Option<&str> = match &key.pid {
            Some(pid) => Some(pid.as_str()),
            None => None,
        };
        append_sample(
            &mut series,
            key.metric.sample.as_str(),
            key.metric.labels.as_str(),
            pid,
        );
        let row = Row {
            family: key.metric.family.clone(),
            metric_type: meta.metric_type,
            series,
            value: values[i].clone(),
        };
        proof {
            let line = export_row(table@[i as int].0, table@[i as int].1, shown[i as int]);
            assert(row@.series =~= line.series);
            assert(row@ =~= line);
        }
        rows.push(row);
        i = i + 1;
    }
    assert(row_views(rows@) =~= export_rows(table@, shown));
    let mut out = render_rows(&rows);
    let ghost body = out@;
    out.append(
        "# HELP prometheus_mmap_exporter_file_errors Number of metric files skipped during this scrape\n",
    );
    out.append("# TYPE prometheus_mmap_exporter_file_errors gauge\n");
    out.append("prometheus_mmap_exporter_file_errors ");
    let count = decimal_text(file_errors);
    out.append(count.as_str());
    out.push('\n');
    assert(out@ =~= body + errors_text(file_errors as int));
    out
}

/// Shows the values of merged rows.
fn shown_values<V: Fn(&MergedValue) -> String>(
    table: &KeyTable<EntryKey, EntryMeta>,
    value_text: V,
) -> (r: Vec<String>)
    requires
        forall|v: &MergedValue| #[trigger] value_text.requires((v,)),
    ensures
        r@.len() == table@.len(),
        forall|n: int|
            0 <= n < table@.len() ==> shown_as(
                value_text,
                table@[n].1.value,
                #[trigger] texts(r@)[n],
            ),
{
    let mut values: Vec<String> = Vec::new();
    let mut k: usize = 0;
    while k < table.len()
        invariant
            k <= table@.len(),
            values@.len() == k,
            forall|v: &MergedValue| #[trigger] value_text.requires((v,)),
            forall|n: int|
                0 <= n < k ==> shown_as(
                    value_text,
                    table@[n].1.value,
                    (#[trigger] values@[n])@,
                ),
        decreases table@.len() - k,
    {
        let text: String = value_text(&table.value(k).value);
        assert(shown_as(value_text, table@[k as int].1.value, text@));
        values.push(text);
        k = k + 1;
    }
    assert forall|n: int| 0 <= n < table@.len() implies shown_as(
        value_text,
        table@[n].1.value,
        #[trigger] texts(values@)[n],
    ) by {
        assert(texts(values@)[n] == values@[n]@);
    }
    values
}

/// What a scrape comes to: the text, and the files that were skipped.
#[derive(Debug)]
pub struct Scrape {
    pub text: String,
    pub failures: Vec<FileFailure>,
}

/// What a pass over the files of a directory comes to: those that were skipped, and
/// those that must be mapped anew.
#[derive(Debug)]
pub struct Refresh {
    pub failures: Vec<FileFailure>,
    pub stale: Vec<FileName>,
}

/// The files of a directory, as far as they are kept in mind, and how many were
/// skipped since it was last listed.
#[derive(Debug)]
pub struct CachedDirExporter {
    files: KeyTable<FileName, CachedFile>,
    skipped: usize,
}

/// What became of one file.
enum Applied {
    Kept,
    Stale,
    Skipped(Option<MmapError>),
}

impl CachedDirExporter {
    /// The files that are kept in mind, in the order of their names.
    pub closed spec fn files(self) -> Seq<(Seq<u8>, CachedFileView)> {
        self.files@
    }

    /// The number of files that were skipped since the directory was last listed.
    pub closed spec fn skipped(self) -> int {
        self.skipped as int
    }

    /// The files that are kept in mind, by name.
    pub open spec fn by_name(self) -> Map<Seq<u8>, CachedFileView> {
        row_map(self.files())
    }

    /// Every file stands in its place, and every value has room.
    pub open spec fn wf(self) -> bool {
        &&& in_order::<FileName, CachedFileView>(self.files())
        &&& forall|i: int|
            0 <= i < self.files().len() ==> places_fit((#[trigger] self.files()[i]).1.entries)
    }

    /// An exporter that keeps nothing in mind yet.
    pub fn new() -> (r: Self)
        ensures
            r.wf(),
            r.files().len() == 0,
            r.by_name() == Map::<Seq<u8>, CachedFileView>::empty(),
            r.skipped() == 0,
    {
        CachedDirExporter { files: KeyTable::new(), skipped: 0 }
    }

    /// Starts on a new listing of the directory: finds its metric files, in the order
    /// of their names, and those that are to be skipped. `unread` counts the entries
    /// that could not be read.
    pub fn discover(&mut self, listing: &Vec<DirEntry>, unread: usize) -> (r: (
        KeyTable<FileName, FileParams>,
        Vec<Refusal>,
    ))
        requires
            unread + listing@.len() <= usize::MAX,
        ensures
            r.0.wf(),
            row_map(r.0@) == readable_files(listing@, listing@.len() as int),
            refusals_say(r.1@, unreadable_files(listing@, listing@.len() as int)),
            final(self).files() == old(self).files(),
            final(self).skipped() == unread + unreadable_files(
                listing@,
                listing@.len() as int,
            ).len(),
    {
        let (found, refusals) = discover_metric_files(listing);
        proof {
            lemma_unreadable_bound(listing@, listing@.len() as int);
        }
        self.skipped = unread + refusals.len();
        (found, refusals)
    }

    /// The number of files that are kept in mind.
    pub fn len(&self) -> (r: usize)
        ensures
            r == self.files().len(),
    {
        self.files.len()
    }

    /// The number of files that were skipped since the directory was last listed.
    pub fn skipped_files(&self) -> (r: usize)
        ensures
            r == self.skipped(),
    {
        self.skipped
    }

    /// The name of a file that is kept in mind.
    pub fn name(&self, i: usize) -> (r: &FileName)
        requires
            i < self.files().len(),
        ensures
            r@ == self.files()[i as int].0,
    {
        self.files.key(i)
    }

    /// What to do next about a file that was found, where `seen` is the identity
    /// of the file that has its name now.
    pub fn next_step(&self, name: &FileName, seen: Option<FileIdentity>) -> (r: RefreshStep)
        requires
            self.wf(),
        ensures
            r == if !self.by_name().dom().contains(name@) {
                RefreshStep::Open
            } else if self.by_name()[name@].identity != seen {
                RefreshStep::Reopen
            } else {
                RefreshStep::Check
            },
    {
        match self.files.get(name) {
            None => RefreshStep::Open,
            Some(file) => if same_identity(file.identity, seen) {
                RefreshStep::Check
            } else {
                RefreshStep::Reopen
            },
        }
    }

    /// Takes note of what became of a file. A file that is skipped is forgotten.
    fn apply(&mut self, params: FileParams, event: &FileEvent) -> (r: Applied)
        requires
            old(self).wf(),
        ensures
            final(self).wf(),
            final(self).skipped() == old(self).skipped(),
            ({
                let files = old(self).by_name();
                let event = event_view(*event);
                match file_after(files, params@, event) {
                    Some(file) => {
                        &&& final(self).by_name() == files.insert(params@.name, file)
                        &&& r == if stale_after(files, params@, event) {
                            Applied::Stale
                        } else {
                            Applied::Kept
                        }
                    },
                    None => {
                        &&& final(self).by_name() == files.remove(params@.name)
                        &&& r == Applied::Skipped(refusal_after(params@, event))
                    },
                }
            }),
    {
        let name = FileName { bytes: copy_bytes(params.name.as_slice()) };
        let ghost before = self.files@;
        match event {
            FileEvent::Opened { identity, map } => match CachedFile::open(
                params,
                *identity,
                *map,
            ) {
                Ok(file) => {
                    let ghost view = file@;
                    self.files.insert(name, file);
                    proof {
                        lemma_files_fit(before, self.files@, name@, view);
                    }
                    Applied::Kept
                },
                Err(e) => {
                    self.files.remove(&name);
                    proof {
                        lemma_rest_fits(before, self.files@);
                    }
                    Applied::Skipped(Some(e))
                },
            },
            FileEvent::Checked { len, identity } => {
                let (pos, known) = self.files.place(&name);
                if !known {
                    assert(self.by_name().remove(name@) =~= self.by_name());
                    return Applied::Skipped(None);
                }
                let ghost file = CachedFileView { params: params@, ..before[pos as int].1 };
                proof {
                    lemma_row_map::<FileName, CachedFileView>(before, pos as int);
                    lemma_update_row::<FileName, CachedFileView>(
                        before,
                        pos as int,
                        checked(file, *len, *identity),
                    );
                }
                let cached = self.files.value_mut(pos);
                cached.set_params(params);
                if cached.refresh_map_if_needed(*len, *identity) {
                    Applied::Stale
                } else {
                    Applied::Kept
                }
            },
            FileEvent::Failed => {
                self.files.remove(&name);
                proof {
                    lemma_rest_fits(before, self.files@);
                }
                Applied::Skipped(None)
            },
        }
    }

    /// Brings what is kept in mind up to date with the files that were found, given
    /// what became of each. Files that are skipped, or were not found, are forgotten.
    pub fn refresh(
        &mut self,
        found: &KeyTable<FileName, FileParams>,
        events: &Vec<FileEvent>,
    ) -> (r: Refresh)
        requires
            old(self).wf(),
            found.wf(),
            events@.len() == found@.len(),
            old(self).skipped() + found@.len() <= usize::MAX,
        ensures
            final(self).wf(),
            ({
                let pass = refresh_pass(
                    old(self).by_name(),
                    found_params(found@),
                    event_views(events@),
                    found@.len() as int,
                );
                &&& final(self).by_name() == pass.files.restrict(row_map(found@).dom())
                &&& final(self).skipped() == old(self).skipped() + pass.failures.len()
                &&& failure_views(r.failures@) == pass.failures
                &&& name_views(r.stale@) == pass.stale
            }),
    {
        let ghost files = self.by_name();
        let ghost params_seq = found_params(found@);
        let ghost event_seq = event_views(events@);
        let ghost skipped = self.skipped();
        let mut failures: Vec<FileFailure> = Vec::new();
        let mut stale: Vec<FileName> = Vec::new();
        let mut i: usize = 0;
        proof {
            let none = refresh_pass(files, params_seq, event_seq, 0);
            assert(failure_views(failures@) =~= none.failures);
            assert(name_views(stale@) =~= none.stale);
        }
        while i < events.len()
            invariant
                i <= events@.len(),
                self.wf(),
                self.skipped() == skipped,
                events@.len() == found@.len(),
                params_seq == found_params(found@),
                event_seq == event_views(events@),
                self.by_name() == refresh_pass(files, params_seq, event_seq, i as int).files,
                failure_views(failures@) == refresh_pass(
                    files,
                    params_seq,
                    event_seq,
                    i as int,
                ).failures,
                name_views(stale@) == refresh_pass(files, params_seq, event_seq, i as int).stale,
                failures@.len() <= i,
            decreases events@.len() - i,
        {
            let ghost failed = failure_views(failures@);
            let ghost late = name_views(stale@);
            assert(params_seq[i as int] == found@[i as int].1);
            assert(event_seq[i as int] == event_view(events@[i as int]));
            let params = found.value(i).clone();
            let name = copy_bytes(params.name.as_slice());
            match self.apply(params, &events[i]) {
                Applied::Kept => {},
                Applied::Stale => {
                    stale.push(FileName { bytes: name });
                    assert(name_views(stale@) =~= late.push(name@));
                },
                Applied::Skipped(error) => {
                    failures.push(FileFailure { name, error });
                    assert(failure_views(failures@) =~= failed.push((name@, error)));
                },
            }
            i = i + 1;
        }
        self.retain_seen(found);
        assert(failure_views(failures@).len() == failures@.len());
        self.skipped = self.skipped + failures.len();
        Refresh { failures, stale }
    }

    /// Takes note of the length and identity that a file has now, and says whether
    /// it must be mapped anew.
    pub fn check_file(&mut self, i: usize, len: usize, identity: Option<FileIdentity>) -> (r: bool)
        requires
            old(self).wf(),
            i < old(self).files().len(),
        ensures
            final(self).wf(),
            ({
                let (name, file) = old(self).files()[i as int];
                &&& r == is_stale(file, len, identity)
                &&& final(self).files() == old(self).files().update(
                    i as int,
                    (name, checked(file, len, identity)),
                )
                &&& final(self).skipped() == old(self).skipped()
            }),
    {
        let ghost rows = self.files@;
        proof {
            assert(places_fit(self.files()[i as int].1.entries));
            lemma_update_row::<FileName, CachedFileView>(
                rows,
                i as int,
                checked(rows[i as int].1, len, identity),
            );
        }
        self.files.value_mut(i).refresh_map_if_needed(len, identity)
    }

    /// Forgets the files that were not found.
    fn retain_seen(&mut self, seen: &KeyTable<FileName, FileParams>)
        requires
            old(self).wf(),
            seen.wf(),
        ensures
            final(self).wf(),
            final(self).skipped() == old(self).skipped(),
            final(self).by_name() == old(self).by_name().restrict(row_map(seen@).dom()),
    {
        let ghost before = self.files@;
        let ghost skipped = self.skipped();
        let mut i: usize = 0;
        while i < self.files.len()
            invariant
                i <= self.files@.len(),
                self.skipped() == skipped,
                self.files.wf(),
                seen.wf(),
                in_order::<FileName, CachedFileView>(before),
                forall|k: int|
                    0 <= k < before.len() ==> places_fit((#[trigger] before[k]).1.entries),
                forall|name: Seq<u8>| #[trigger]
                    row_map(self.files@).dom().contains(name) ==> row_map(before).dom().contains(
                        name,
                    ) && row_map(self.files@)[name] == row_map(before)[name],
                forall|name: Seq<u8>| #[trigger]
                    row_map(before).dom().contains(name) && row_map(seen@).dom().contains(name)
                        ==> row_map(self.files@).dom().contains(name),
                forall|k: int|
                    0 <= k < i ==> row_map(seen@).dom().contains((#[trigger] self.files@[k]).0),
            decreases self.files@.len() - i,
        {
            let (_pos, found) = seen.place(self.files.key(i));
            if found {
                i = i + 1;
            } else {
                self.files.remove_row(i);
            }
        }
        proof {
            lemma_rest_fits(before, self.files@);
            let kept = row_map(before).restrict(row_map(seen@).dom());
            assert forall|name: Seq<u8>| #[trigger]
                row_map(self.files@).dom().contains(name) implies kept.dom().contains(name) by {
                let k = row_with(self.files@, name);
                assert(row_map(seen@).dom().contains(self.files@[k].0));
            }
            assert(row_map(self.files@) =~= kept);
        }
    }

    /// Scrapes one file: walks over what has come since and joins its entries to a
    /// table.
    fn scrape_file(
        &mut self,
        i: usize,
        map: &[u8],
        table: &mut KeyTable<EntryKey, EntryMeta>,
    ) -> (r: Result<(), MmapError>)
        requires
            old(self).wf(),
            old(table).wf(),
            i < old(self).files().len(),
        ensures
            final(self).wf(),
            final(table).wf(),
            ({
                let name = old(self).files()[i as int].0;
                let (file, refusal) = refreshed(old(self).files()[i as int].1, map@);
                &&& final(self).skipped() == old(self).skipped()
                &&& final(self).files() == old(self).files().update(i as int, (name, file))
                &&& match refusal {
                    Some(e) => r == Err::<(), MmapError>(e) && final(table)@ == old(table)@,
                    None => {
                        &&& r == Ok::<(), MmapError>(())
                        &&& row_map(final(table)@) == if file.active {
                            merged_entries(
                                row_map(old(table)@),
                                file.params,
                                map@,
                                used_of(map@),
                                file.entries,
                            )
                        } else {
                            row_map(old(table)@)
                        }
                    },
                }
            }),
    {
        let ghost rows = self.files@;
        let ghost fresh = refreshed(rows[i as int].1, map@).0;
        proof {
            assert(places_fit(self.files()[i as int].1.entries));
            lemma_update_row::<FileName, CachedFileView>(rows, i as int, fresh);
        }
        match self.files.value_mut(i).refresh_entries(map) {
            Ok(()) => {},
            Err(e) => return Err(e),
        }
        let file = self.files.value(i);
        if file.active {
            merge_entries(table, &file.params, map, claimed_used(map), &file.entries);
        }
        Ok(())
    }

    /// Scrapes every file that is kept in mind: joins the entries of each to a table, and
    /// forgets those that are refused.
    fn scrape_files(
        &mut self,
        maps: &Vec<FileMap>,
    ) -> (r: (KeyTable<EntryKey, EntryMeta>, Vec<FileFailure>))
        requires
            old(self).wf(),
            maps@.len() == old(self).files().len(),
        ensures
            final(self).wf(),
            final(self).skipped() == old(self).skipped(),
            r.0.wf(),
            r.1@.len() <= maps@.len(),
            ({
                let scrape = scraped(old(self).files(), map_views(maps@), maps@.len() as int);
                &&& final(self).files() == scrape.files
                &&& row_map(r.0@) == scrape.known
                &&& failure_views(r.1@) == scrape.failures
            }),
    {
        let ghost all = self.files@;
        let ghost views = map_views(maps@);
        let ghost skipped = self.skipped();
        let mut table: KeyTable<EntryKey, EntryMeta> = KeyTable::new();
        let mut failures: Vec<FileFailure> = Vec::new();
        let mut i: usize = 0;
        let mut j: usize = 0;
        proof {
            assert(scraped(all, views, 0).files + all.skip(0) =~= all);
            assert(failure_views(failures@) =~= scraped(all, views, 0).failures);
        }
        while j < maps.len()
            invariant
                i <= j <= maps@.len(),
                maps@.len() == all.len(),
                views == map_views(maps@),
                table.wf(),
                self.wf(),
                self.skipped() == skipped,
                self.files@ == scraped(all, views, j as int).files + all.skip(j as int),
                i == scraped(all, views, j as int).files.len(),
                row_map(table@) == scraped(all, views, j as int).known,
                failure_views(failures@) == scraped(all, views, j as int).failures,
                failures@.len() + i == j,
            decreases maps@.len() - j,
        {
            let ghost rows = self.files@;
            let ghost so_far = scraped(all, views, j as int);
            let ghost next = scraped(all, views, j + 1);
            let ghost failed = failure_views(failures@);
            proof {
                assert(rows[i as int] == all[j as int]);
                assert(views[j as int] == map_views(maps@)[j as int]);
                assert(places_fit(self.files()[i as int].1.entries));
                assert(all.skip(j as int).drop_first() =~= all.skip(j + 1));
            }
            let mut refusal: Option<FileFailure> = None;
            match &maps[j] {
                FileMap::Failed => {
                    let name = copy_bytes(self.files.key(i).bytes.as_slice());
                    refusal = Some(FileFailure { name, error: None });
                },
                FileMap::Mapped(map) => {
                    match self.scrape_file(i, *map, &mut table) {
                        Ok(()) => {},
                        Err(e) => {
                            let name = copy_bytes(self.files.key(i).bytes.as_slice());
                            refusal = Some(FileFailure { name, error: Some(e) });
                        },
                    }
                },
            }
            match refusal {
                Some(failure) => {
                    let ghost entry = (failure.name@, failure.error);
                    self.files.remove_row(i);
                    failures.push(failure);
                    proof {
                        assert(failure_views(failures@) =~= failed.push(entry));
                        assert(self.files@ =~= so_far.files + all.skip(j + 1));
                        assert(next.files == so_far.files);
                    }
                },
                None => {
                    proof {
                        assert(self.files@ =~= next.files + all.skip(j + 1));
                    }
                    i = i + 1;
                },
            }
            j = j + 1;
        }
        assert(self.files@ =~= scraped(all, views, maps@.len() as int).files);
        (table, failures)
    }

    /// Scrapes the files that are kept in mind. `maps` holds the bytes of each, in
    /// the order of their names; `value_text` adds up a merged value and shows the
    /// double it comes to. Files that are refused are forgotten.
    pub fn render<V: Fn(&MergedValue) -> String>(
        &mut self,
        maps: &Vec<FileMap>,
        value_text: V,
    ) -> (r: Scrape)
        requires
            old(self).wf(),
            maps@.len() == old(self).files().len(),
            old(self).skipped() + maps@.len() <= usize::MAX,
            forall|v: &MergedValue| #[trigger] value_text.requires((v,)),
        ensures
            final(self).wf(),
            ({
                let scrape = scraped(old(self).files(), map_views(maps@), maps@.len() as int);
                let rows = rows_in_order(scrape.known);
                &&& final(self).files() == scrape.files
                &&& final(self).skipped() == old(self).skipped()
                &&& failure_views(r.failures@) == scrape.failures
                &&& exists|values: Seq<Seq<char>>|
                    {
                        &&& values.len() == rows.len()
                        &&& forall|i: int|
                            0 <= i < rows.len() ==> shown_as(
                                value_text,
                                rows[i].1.value,
                                #[trigger] values[i],
                            )
                        &&& r.text@ == #[trigger] scrape_text(
                            scrape.known,
                            values,
                            old(self).skipped() + scrape.failures.len(),
                        )
                    }
            }),
    {
        let ghost scrape = scraped(self.files(), map_views(maps@), maps@.len() as int);
        let ghost skipped = self.skipped();
        let (table, failures) = self.scrape_files(maps);
        let values = shown_values(&table, value_text);
        let text = render(&table, &values, self.skipped + failures.len());
        proof {
            lemma_sorted_rows::<EntryKey, MetaView>(table@);
            assert(rows_in_order(scrape.known) == table@);
            assert(failure_views(failures@).len() == failures@.len());
            assert(text@ == scrape_text(
                scrape.known,
                texts(values@),
                skipped + scrape.failures.len(),
            ));
        }
        Scrape { text, failures }
    }
}

proof fn lemma_unreadable_bound(listing: Seq<DirEntry>, n: int)
    requires
        0 <= n,
    ensures
        unreadable_files(listing, n).len() <= n,
    decreases n,
{
    if n > 0 {
        lemma_unreadable_bound(listing, n - 1);
    }
}

proof fn lemma_rest_fits(
    before: Seq<(Seq<u8>, CachedFileView)>,
    after: Seq<(Seq<u8>, CachedFileView)>,
)
    requires
        in_order::<FileName, CachedFileView>(before),
        in_order::<FileName, CachedFileView>(after),
        forall|name: Seq<u8>| #[trigger]
            row_map(after).dom().contains(name) ==> row_map(before).dom().contains(name)
                && row_map(after)[name] == row_map(before)[name],
        forall|i: int| 0 <= i < before.len() ==> places_fit((#[trigger] before[i]).1.entries),
    ensures
        forall|i: int| 0 <= i < after.len() ==> places_fit((#[trigger] after[i]).1.entries),
{
    assert forall|i: int| 0 <= i < after.len() implies places_fit(
        (#[trigger] after[i]).1.entries,
    ) by {
        let name = after[i].0;
        lemma_row_map::<FileName, CachedFileView>(after, i);
        let j = row_with(before, name);
        assert(0 <= j < before.len() && before[j].0 == name);
        lemma_row_map::<FileName, CachedFileView>(before, j);
    }
}

proof fn lemma_files_fit(
    before: Seq<(Seq<u8>, CachedFileView)>,
    after: Seq<(Seq<u8>, CachedFileView)>,
    name: Seq<u8>,
    file: CachedFileView,
)
    requires
        in_order::<FileName, CachedFileView>(before),
        in_order::<FileName, CachedFileView>(after),
        row_map(after) == row_map(before).insert(name, file),
        places_fit(file.entries),
        forall|i: int| 0 <= i < before.len() ==> places_fit((#[trigger] before[i]).1.entries),
    ensures
        forall|i: int| 0 <= i < after.len() ==> places_fit((#[trigger] after[i]).1.entries),
{
    assert forall|i: int| 0 <= i < after.len() implies places_fit(
        (#[trigger] after[i]).1.entries,
    ) by {
        let other = after[i].0;
        lemma_row_map::<FileName, CachedFileView>(after, i);
        if other != name {
            let j = row_with(before, other);
            assert(0 <= j < before.len() && before[j].0 == other);
            lemma_row_map::<FileName, CachedFileView>(before, j);
        }
    }
}

/// Rows that stand in the order of their keys have each family in one piece, so
/// that each is announced once.
pub proof fn law_families_together(
    rows: Seq<(EntryKeyView, MetaView)>,
    i: int,
    j: int,
    k: int,
)
    requires
        in_order::<EntryKey, MetaView>(rows),
        0 <= i < j < k < rows.len(),
        rows[i].0.metric.family == rows[k].0.metric.family,
    ensures
        rows[j].0.metric.family == rows[i].0.metric.family,
{
    let a = rows[i].0.metric.family;
    let b = rows[j].0.metric.family;
    assert(EntryKey::before(rows[i].0, rows[j].0));
    assert(EntryKey::before(rows[j].0, rows[k].0));
    lemma_text_order(a, b, a);
}

/// A file that is skipped takes nothing from the others: what is known of every
/// key is what a scrape without that file would find.
pub proof fn law_failed_file_isolated(
    files: Seq<(Seq<u8>, CachedFileView)>,
    maps: Seq<Option<Seq<u8>>>,
    bad: int,
    n: int,
)
    requires
        files.len() == maps.len(),
        0 <= bad < n <= files.len(),
        match maps[bad] {
            None => true,
            Some(map) => refreshed(files[bad].1, map).1 is Some,
        },
    ensures
        ({
            let all = scraped(files, maps, n);
            let rest = scraped(files.remove(bad), maps.remove(bad), n - 1);
            &&& all.known == rest.known
            &&& all.files == rest.files
            &&& all.failures.len() == rest.failures.len() + 1
        }),
    decreases n,
{
    let fewer = files.remove(bad);
    let fewer_maps = maps.remove(bad);
    if n == bad + 1 {
        lemma_scraped_same(files, maps, fewer, fewer_maps, bad);
    } else {
        law_failed_file_isolated(files, maps, bad, n - 1);
        assert(fewer[n - 2] == files[n - 1]);
        assert(fewer_maps[n - 2] == maps[n - 1]);
    }
}

/// A scrape depends on the files and their bytes alone.
pub(crate) proof fn lemma_scraped_same(
    files: Seq<(Seq<u8>, CachedFileView)>,
    maps: Seq<Option<Seq<u8>>>,
    other_files: Seq<(Seq<u8>, CachedFileView)>,
    other_maps: Seq<Option<Seq<u8>>>,
    n: int,
)
    requires
        forall|i: int| 0 <= i < n ==> files[i] == other_files[i] && maps[i] == other_maps[i],
    ensures
        scraped(files, maps, n) == scraped(other_files, other_maps, n),
    decreases n,
{
    if n > 0 {
        lemma_scraped_same(files, maps, other_files, other_maps, n - 1);
        assert(files[n - 1] == other_files[n - 1] && maps[n - 1] == other_maps[n - 1]);
    }
}

/// For keys that are not written as JSON text, the exporter and the aggregate of a
/// directory write the same lines.
pub proof fn law_same_lines(
    rows: Seq<(EntryKeyView, MetaView)>,
    texts: Seq<RowTextView>,
    values: Seq<Seq<char>>,
    n: int,
)
    requires
        0 <= n <= rows.len(),
        rows.len() == texts.len() == values.len(),
        forall|i: int|
            0 <= i < texts.len() ==> (#[trigger] texts[i]).key is Structured && texts[i].value
                == values[i],
    ensures
        rows_of(rows, texts, n) == Ok::<Seq<RowView>, Seq<char>>(
            export_rows(rows, values).take(n),
        ),
    decreases n,
{
    let lines = export_rows(rows, values);
    if n > 0 {
        law_same_lines(rows, texts, values, n - 1);
        assert(texts[n - 1].key is Structured);
        assert(lines.take(n) =~= lines.take(n - 1).push(lines[n - 1]));
    } else {
        assert(lines.take(0) =~= Seq::<RowView>::empty());
    }
}

/// A reader has kept up with these files: each is passed over, or is in order and
/// is known as far as it was parsed.
pub open spec fn kept_up(
    files: Seq<MetricFile>,
    cached: Seq<(Seq<u8>, CachedFileView)>,
    n: int,
) -> bool {
    forall|i: int|
        0 <= i < n ==> {
            let map = (#[trigger] files[i]).bytes@;
            &&& cached[i].1.params == files[i].params@
            &&& passed_over(map) || {
                &&& !used_overruns(map)
                &&& walked(cached[i].1, map)
                &&& cached[i].1.parsed_used <= used_of(map)
                &&& !(scan(map, HEADER_SIZE as int, used_of(map)).stop is NotText)
            }
        }
}

/// An exporter that has kept up with its files knows of every key what the
/// aggregate of those files knows of it.
pub proof fn law_exporter_agrees_with_aggregate(
    files: Seq<MetricFile>,
    cached: Seq<(Seq<u8>, CachedFileView)>,
    maps: Seq<Option<Seq<u8>>>,
    n: int,
)
    requires
        0 <= n <= files.len(),
        files.len() == cached.len() == maps.len(),
        kept_up(files, cached, n),
        forall|i: int| 0 <= i < n ==> #[trigger] maps[i] == Some(files[i].bytes@),
    ensures
        merged_files(files.take(n)) == Ok::<Map<EntryKeyView, MetaView>, MmapError>(
            scraped(cached, maps, n).known,
        ),
        scraped(cached, maps, n).failures.len() == 0,
    decreases n,
{
    if n > 0 {
        law_exporter_agrees_with_aggregate(files, cached, maps, n - 1);
        assert(files.take(n).drop_last() =~= files.take(n - 1));
        let map = files[n - 1].bytes@;
        let file = cached[n - 1].1;
        assert(maps[n - 1] == Some(map));
        if !passed_over(map) {
            lemma_scan_extend(map, map, HEADER_SIZE as int, file.parsed_used, used_of(map));
            law_incremental_walk(file, map);
        }
    } else {
        assert(files.take(0) =~= Seq::<MetricFile>::empty());
    }
}

/// A file under a name is found exactly if the listing has a metric file of that name
/// which can be read. The files that are skipped are the metric files that cannot, each
/// once, with the words of its refusal.
pub proof fn law_found_by_name(listing: Seq<DirEntry>, n: int, name: Seq<u8>, k: int)
    requires
        0 <= n <= listing.len(),
    ensures
        readable_files(listing, n).dom().contains(name) <==> exists|i: int|
            0 <= i < n && is_metric_entry(#[trigger] listing[i]) && listing[i].name@ == name
                && name_params(name, listing[i].shown@) is Ok,
        readable_files(listing, n).dom().contains(name) ==> name_params(name, Seq::empty()) == Ok::<
            FileParamsView,
            Seq<char>,
        >(readable_files(listing, n)[name]),
        0 <= k < n && is_metric_entry(listing[k]) && name_params(
            listing[k].name@,
            listing[k].shown@,
        ) is Err ==> unreadable_files(listing, n).contains(
            (k, name_params(listing[k].name@, listing[k].shown@)->Err_0),
        ),
        forall|j: int|
            0 <= j < unreadable_files(listing, n).len() ==> {
                let (i, words) = #[trigger] unreadable_files(listing, n)[j];
                &&& 0 <= i < n
                &&& is_metric_entry(listing[i])
                &&& name_params(listing[i].name@, listing[i].shown@) == Err::<
                    FileParamsView,
                    Seq<char>,
                >(words)
            },
        forall|a: int, b: int|
            0 <= a < b < unreadable_files(listing, n).len() ==> (#[trigger] unreadable_files(
                listing,
                n,
            )[a]).0 < (#[trigger] unreadable_files(listing, n)[b]).0,
    decreases n,
{
    if n > 0 {
        law_found_by_name(listing, n - 1, name, k);
        let entry = listing[n - 1];
        lemma_params_by_name(entry.name@, entry.shown@, Seq::empty());
        let before = readable_files(listing, n - 1);
        if before.dom().contains(name) {
            let i = choose|i: int|
                0 <= i < n - 1 && is_metric_entry(#[trigger] listing[i]) && listing[i].name@ == name
                    && name_params(name, listing[i].shown@) is Ok;
            assert(is_metric_entry(listing[i]));
        }
        if is_metric_entry(entry) && entry.name@ == name {
            assert(is_metric_entry(listing[n - 1]));
        }
        let skipped = unreadable_files(listing, n - 1);
        let after = unreadable_files(listing, n);
        if 0 <= k < n && is_metric_entry(listing[k]) && name_params(
            listing[k].name@,
            listing[k].shown@,
        ) is Err {
            let one = (k, name_params(listing[k].name@, listing[k].shown@)->Err_0);
            if k < n - 1 {
                let j = skipped.index_of(one);
                assert(after[j] == one);
            } else {
                assert(after[after.len() - 1] == one);
            }
        }
    }
}

/// A look at a file finds it changed exactly if it has another length or another identity
/// than before; then nothing of what was read of it stays in mind, and else all of it.
pub proof fn law_checked(file: CachedFileView, len: usize, identity: Option<FileIdentity>)
    ensures
        is_stale(file, len, identity) <==> len != file.map_len || identity != file.identity,
        len == file.map_len && identity == file.identity ==> checked(file, len, identity) == file,
        len != file.map_len || identity != file.identity ==> {
            let after = checked(file, len, identity);
            &&& after.map_len == len && after.identity == identity
            &&& after.parsed_used == 8 && after.entries == Seq::<FoundView>::empty()
            &&& after.params == file.params && after.active == file.active
        },
{
}

/// A file that is read, by what it holds. One that is shorter than its header or of
/// another version than two has nothing to show. One whose header claims more than there
/// is is refused. Of a file that is new, or has fewer bytes in use than were read of it,
/// the entries are those of a walk from the header on, and it is refused exactly if that
/// walk meets an entry whose names are not UTF-8. Of any other only the bytes behind those
/// that were read are walked, and what was found before stays.
pub proof fn law_refreshed(file: CachedFileView, map: Seq<u8>)
    ensures
        ({
            let (after, refusal) = refreshed(file, map);
            let word = native_u32(map.subrange(0, 4));
            let used = if word == 0 { 8 } else { word };
            let known = map.len() >= 8 && native_u32(map.subrange(4, 8)) == 2;
            let walk = scan(map, 8, used);
            let anew = file.parsed_used == 8 && file.entries.len() == 0 || used < file.parsed_used;
            &&& after.params == file.params && after.identity == file.identity && after.map_len
                == file.map_len
            &&& !known ==> refusal is None && !after.active && after.entries.len() == 0
                && after.parsed_used == 8
            &&& known && used > map.len() ==> refusal == Some(
                MmapError::InvalidUsed { used: used as usize, len: map.len() as usize },
            ) && after.entries == file.entries && after.parsed_used == file.parsed_used
                && after.active
            &&& known && used <= map.len() ==> after.active
            &&& known && used <= map.len() && anew ==> {
                &&& refusal is None <==> !(walk.stop is NotText)
                &&& walk.stop matches ScanStop::NotText(e) ==> refusal == Some(e)
                &&& after.entries == walk.entries
                &&& after.parsed_used == if refusal is None {
                    walk.end
                } else {
                    8
                }
            }
            &&& known && 8 <= file.parsed_used <= used <= map.len() ==> {
                let further = scan(map, file.parsed_used, used);
                &&& refusal is None <==> !(further.stop is NotText)
                &&& further.stop matches ScanStop::NotText(e) ==> refusal == Some(e)
                &&& after.entries == file.entries + further.entries
                &&& after.parsed_used == if refusal is None {
                    further.end
                } else {
                    file.parsed_used
                }
            }
        }),
{
    let used = used_of(map);
    let walk = scan(map, 8, used);
    assert(Seq::<FoundView>::empty() + walk.entries =~= walk.entries);
    if file.entries.len() == 0 {
        assert(file.entries + walk.entries =~= walk.entries);
    }
}

/// What is kept in mind of a file after what became of it. One that was opened is read
/// from its start, and skipped if it is refused. One that is known and was looked at stays
/// as that look leaves it, under what its name says now. One that could not be reached is
/// skipped, and so is one that was looked at but is not known.
pub proof fn law_file_after(
    files: Map<Seq<u8>, CachedFileView>,
    params: FileParamsView,
    identity: Option<FileIdentity>,
    map: Seq<u8>,
    len: usize,
)
    requires
        map.len() <= usize::MAX,
    ensures
        ({
            let fresh = CachedFileView {
                params,
                identity,
                map_len: map.len() as usize,
                parsed_used: 8,
                entries: Seq::empty(),
                active: false,
            };
            let opened = EventView::Opened { identity, map };
            &&& refreshed(fresh, map).1 is None ==> file_after(files, params, opened) == Some(
                refreshed(fresh, map).0,
            )
            &&& refreshed(fresh, map).1 is Some ==> file_after(files, params, opened) is None
                && refusal_after(params, opened) == refreshed(fresh, map).1
            &&& !stale_after(files, params, opened)
        }),
        ({
            let looked = EventView::Checked { len, identity };
            let known = files.dom().contains(params.name);
            let file = files[params.name];
            &&& known ==> file_after(files, params, looked) == Some(
                checked(CachedFileView { params, ..file }, len, identity),
            )
            &&& known ==> (stale_after(files, params, looked) <==> len != file.map_len || identity
                != file.identity)
            &&& !known ==> file_after(files, params, looked) is None && !stale_after(
                files,
                params,
                looked,
            )
        }),
        file_after(files, params, EventView::Failed) is None,
        refusal_after(params, EventView::Failed) is None,
        refusal_after(params, EventView::Checked { len, identity }) is None,
        !stale_after(files, params, EventView::Failed),
{
}

/// A pass over files of distinct names does with each what became of it, whatever becomes
/// of the others: it is kept in mind or forgotten, and counted if it is skipped. A file
/// that was not found is left alone.
pub proof fn law_pass_file_by_file(
    files: Map<Seq<u8>, CachedFileView>,
    params: Seq<FileParamsView>,
    events: Seq<EventView>,
    n: int,
    k: int,
    other: Seq<u8>,
)
    requires
        0 <= k < n <= params.len(),
        params.len() == events.len(),
        forall|i: int, j: int|
            0 <= i < j < params.len() ==> (#[trigger] params[i]).name != (
            #[trigger] params[j]).name,
        forall|i: int| 0 <= i < params.len() ==> (#[trigger] params[i]).name != other,
    ensures
        ({
            let pass = refresh_pass(files, params, events, n);
            let name = params[k].name;
            &&& file_after(files, params[k], events[k]) matches Some(file)
                ==> pass.files.dom().contains(name) && pass.files[name] == file
            &&& file_after(files, params[k], events[k]) is None ==> !pass.files.dom().contains(
                name,
            ) && pass.failures.contains((name, refusal_after(params[k], events[k])))
            &&& pass.stale.contains(name) <==> file_after(files, params[k], events[k]) is Some
                && stale_after(files, params[k], events[k])
            &&& pass.files.dom().contains(other) == files.dom().contains(other)
            &&& files.dom().contains(other) ==> pass.files[other] == files[other]
        }),
    decreases n,
{
    lemma_pass_others(files, params, events, n - 1, params[n - 1].name);
    lemma_pass_others(files, params, events, n, other);
    let so_far = refresh_pass(files, params, events, n - 1);
    let pass = refresh_pass(files, params, events, n);
    let last = params[n - 1];
    assert(file_after(so_far.files, last, events[n - 1]) == file_after(
        files,
        last,
        events[n - 1],
    ));
    assert(stale_after(so_far.files, last, events[n - 1]) == stale_after(
        files,
        last,
        events[n - 1],
    ));
    lemma_pass_stale_names(files, params, events, n - 1);
    if k < n - 1 {
        law_pass_file_by_file(files, params, events, n - 1, k, other);
        assert(params[k].name != params[n - 1].name);
        if so_far.failures.contains((params[k].name, refusal_after(params[k], events[k]))) {
            let j = so_far.failures.index_of(
                (params[k].name, refusal_after(params[k], events[k])),
            );
            assert(pass.failures[j] == so_far.failures[j]);
        }
        if so_far.stale.contains(params[k].name) {
            let j = so_far.stale.index_of(params[k].name);
            assert(pass.stale[j] == so_far.stale[j]);
        }
        if pass.stale.contains(params[k].name) {
            let j = pass.stale.index_of(params[k].name);
            if j < so_far.stale.len() {
                assert(so_far.stale[j] == params[k].name);
            }
        }
    } else {
        if file_after(files, last, events[k]) is None {
            assert(pass.failures[pass.failures.len() - 1] == (
                last.name,
                refusal_after(last, events[k]),
            ));
        } else if stale_after(files, last, events[k]) {
            assert(pass.stale[pass.stale.len() - 1] == last.name);
        }
        if so_far.stale.contains(last.name) {
            let j = so_far.stale.index_of(last.name);
            let i = choose|i: int| 0 <= i < n - 1 && (#[trigger] params[i]).name == so_far.stale[j];
            assert(params[i].name != params[n - 1].name);
        }
        if pass.stale.contains(last.name) {
            let j = pass.stale.index_of(last.name);
            if j < so_far.stale.len() {
                assert(so_far.stale[j] == last.name);
            }
        }
    }
}

proof fn lemma_pass_others(
    files: Map<Seq<u8>, CachedFileView>,
    params: Seq<FileParamsView>,
    events: Seq<EventView>,
    n: int,
    name: Seq<u8>,
)
    requires
        0 <= n <= params.len(),
        forall|i: int| 0 <= i < n ==> (#[trigger] params[i]).name != name,
    ensures
        ({
            let after = refresh_pass(files, params, events, n).files;
            &&& after.dom().contains(name) == files.dom().contains(name)
            &&& after[name] == files[name]
        }),
    decreases n,
{
    if n > 0 {
        lemma_pass_others(files, params, events, n - 1, name);
        assert(params[n - 1].name != name);
    }
}

proof fn lemma_pass_stale_names(
    files: Map<Seq<u8>, CachedFileView>,
    params: Seq<FileParamsView>,
    events: Seq<EventView>,
    n: int,
)
    requires
        0 <= n <= params.len(),
    ensures
        forall|j: int|
            0 <= j < refresh_pass(files, params, events, n).stale.len() ==> exists|i: int|
                0 <= i < n && (#[trigger] params[i]).name == #[trigger] refresh_pass(
                    files,
                    params,
                    events,
                    n,
                ).stale[j],
    decreases n,
{
    if n > 0 {
        lemma_pass_stale_names(files, params, events, n - 1);
        let before = refresh_pass(files, params, events, n - 1).stale;
        let after = refresh_pass(files, params, events, n).stale;
        assert forall|j: int| 0 <= j < after.len() implies exists|i: int|
            0 <= i < n && (#[trigger] params[i]).name == #[trigger] after[j] by {
            if j < before.len() {
                assert(after[j] == before[j]);
                let i = choose|i: int| 0 <= i < n - 1 && (#[trigger] params[i]).name == before[j];
                assert(params[i].name == after[j]);
            } else {
                assert(params[n - 1].name == after[j]);
            }
        }
    }
}

/// Of every file that is skipped, and of no other, the count goes up by one: a pass over
/// files and a scrape of them leave out as many as they keep in mind fewer.
pub proof fn law_every_file_kept_or_counted(
    files: Seq<(Seq<u8>, CachedFileView)>,
    maps: Seq<Option<Seq<u8>>>,
    n: int,
    k: int,
)
    requires
        0 <= k < n <= files.len(),
        files.len() == maps.len(),
    ensures
        ({
            let scrape = scraped(files, maps, n);
            let (name, file) = files[k];
            &&& scrape.files.len() + scrape.failures.len() == n
            &&& maps[k] is None ==> scrape.failures.contains((name, None))
            &&& maps[k] matches Some(map) ==> match refreshed(file, map).1 {
                Some(e) => scrape.failures.contains((name, Some(e))),
                None => scrape.files.contains((name, refreshed(file, map).0)),
            }
        }),
    decreases n,
{
    let so_far = scraped(files, maps, n - 1);
    let scrape = scraped(files, maps, n);
    if n > 1 {
        law_every_file_kept_or_counted(files, maps, n - 1, if k < n - 1 { k } else { 0 });
    }
    let (name, file) = files[k];
    if k < n - 1 {
        assert forall|one: (Seq<u8>, Option<MmapError>)| so_far.failures.contains(
            one,
        ) implies scrape.failures.contains(one) by {
            let j = so_far.failures.index_of(one);
            assert(scrape.failures[j] == one);
        }
        assert forall|one: (Seq<u8>, CachedFileView)| so_far.files.contains(
            one,
        ) implies scrape.files.contains(one) by {
            let j = so_far.files.index_of(one);
            assert(scrape.files[j] == one);
        }
    } else {
        if scrape.failures.len() > so_far.failures.len() {
            assert(scrape.failures[scrape.failures.len() - 1] == scrape.failures.last());
        } else {
            assert(scrape.files[scrape.files.len() - 1] == scrape.files.last());
        }
    }
}

/// A pass skips as many files as it counts.
pub proof fn law_pass_counts_once(
    files: Map<Seq<u8>, CachedFileView>,
    params: Seq<FileParamsView>,
    events: Seq<EventView>,
    n: int,
)
    requires
        0 < n <= params.len(),
    ensures
        ({
            let before = refresh_pass(files, params, events, n - 1);
            let after = refresh_pass(files, params, events, n);
            after.failures.len() == before.failures.len() + (if file_after(
                before.files,
                params[n - 1],
                events[n - 1],
            ) is None {
                1int
            } else {
                0int
            })
        }),
{
}

/// What a scrape writes of a merged row, and at its end of the files that were skipped.
pub proof fn law_scrape_text(
    rows: Seq<(EntryKeyView, MetaView)>,
    values: Seq<Seq<char>>,
    i: int,
    known: Map<EntryKeyView, MetaView>,
    skipped: nat,
)
    requires
        rows.len() == values.len(),
    ensures
        export_rows(rows, values).len() == rows.len(),
        0 <= i < rows.len() ==> {
            let row = export_rows(rows, values)[i];
            let key = rows[i].0;
            &&& row.family == key.metric.family
            &&& row.metric_type == rows[i].1.metric_type
            &&& row.value == values[i]
            &&& key.pid is None ==> row.series == key.metric.sample + key.metric.labels
            &&& row.series == sample_text(key.metric.sample, key.metric.labels, key.pid)
        },
        scrape_text(known, values, skipped as int) == rendered(
            export_rows(rows_in_order(known), values),
        ) + "# HELP prometheus_mmap_exporter_file_errors Number of metric files skipped during this scrape\n"@
            + "# TYPE prometheus_mmap_exporter_file_errors gauge\n"@
            + "prometheus_mmap_exporter_file_errors "@ + decimal(skipped) + seq!['\n'],
{
    let head = rendered(export_rows(rows_in_order(known), values));
    assert(scrape_text(known, values, skipped as int) =~= head
        + "# HELP prometheus_mmap_exporter_file_errors Number of metric files skipped during this scrape\n"@
        + "# TYPE prometheus_mmap_exporter_file_errors gauge\n"@
        + "prometheus_mmap_exporter_file_errors "@ + decimal(skipped) + seq!['\n']);
}

/// Merged rows in the order of their keys announce each family with its first row alone.
pub proof fn law_export_announces_once(
    rows: Seq<(EntryKeyView, MetaView)>,
    values: Seq<Seq<char>>,
    i: int,
) -> (rest: Seq<char>)
    requires
        in_order::<EntryKey, MetaView>(rows),
        rows.len() == values.len(),
        0 <= i < rows.len(),
    ensures
        ({
            let lines = export_rows(rows, values);
            let family = rows[i].0.metric.family;
            let kind = match rows[i].1.metric_type {
                MetricType::Counter => "counter"@,
                MetricType::Gauge => "gauge"@,
                MetricType::Histogram => "histogram"@,
                MetricType::Summary => "summary"@,
            };
            let line = lines[i].series + seq![' '] + values[i] + seq!['\n'];
            let first = forall|a: int|
                0 <= a < i ==> (#[trigger] rows[a]).0.metric.family != family;
            rendered(lines) == (if first {
                rendered(lines.take(i)) + ("# HELP "@ + family + " Multiprocess metric\n"@) + (
                "# TYPE "@ + family + seq![' '] + kind + seq!['\n']) + line + rest
            } else {
                rendered(lines.take(i)) + line + rest
            })
        }),
{
    let lines = export_rows(rows, values);
    assert forall|a: int, b: int, c: int|
        0 <= a < b < c < lines.len() && (#[trigger] lines[a]).family == (
        #[trigger] lines[c]).family implies (#[trigger] lines[b]).family == lines[a].family by {
        law_families_together(rows, a, b, c);
    }
    let family = rows[i].0.metric.family;
    assert((forall|a: int| 0 <= a < i ==> (#[trigger] rows[a]).0.metric.family != family) <==> (
    forall|a: int| 0 <= a < i ==> (#[trigger] lines[a]).family != lines[i].family)) by {
        if forall|a: int| 0 <= a < i ==> (#[trigger] rows[a]).0.metric.family != family {
            assert forall|a: int| 0 <= a < i implies (#[trigger] lines[a]).family
                != lines[i].family by {
                assert(rows[a].0.metric.family != family);
            }
        }
        if forall|a: int| 0 <= a < i ==> (#[trigger] lines[a]).family != lines[i].family {
            assert forall|a: int| 0 <= a < i implies (#[trigger] rows[a]).0.metric.family
                != family by {
                assert(lines[a].family != lines[i].family);
            }
        }
    }
    law_family_announced_once(lines, i)
}

/// A file that is not known is opened, one that is known but is another file now is opened
/// anew, and every other is only looked at.
pub proof fn law_next_step(
    exporter: CachedDirExporter,
    name: FileName,
    seen: Option<FileIdentity>,
    r: RefreshStep,
)
    requires
        exporter.wf(),
        call_ensures(CachedDirExporter::next_step, (&exporter, &name, seen), r),
    ensures
        r is Open <==> !exporter.by_name().dom().contains(name@),
        r is Check <==> exporter.by_name().dom().contains(name@)
            && exporter.by_name()[name@].identity == seen,
        r is Reopen <==> exporter.by_name().dom().contains(name@)
            && exporter.by_name()[name@].identity != seen,
{
}

/// What became of files, what they hold and what failed say what their fields hold.
pub proof fn law_reports_say_their_fields(
    events: Seq<FileEvent>,
    maps: Seq<FileMap>,
    failures: Seq<FileFailure>,
    i: int,
)
    ensures
        event_views(events).len() == events.len(),
        0 <= i < events.len() ==> match events[i] {
            FileEvent::Opened { identity, map } => event_views(events)[i] == (EventView::Opened {
                identity,
                map: map@,
            }),
            FileEvent::Checked { len, identity } => event_views(events)[i] == (EventView::Checked {
                len,
                identity,
            }),
            FileEvent::Failed => event_views(events)[i] == EventView::Failed,
        },
        map_views(maps).len() == maps.len(),
        0 <= i < maps.len() ==> match maps[i] {
            FileMap::Mapped(bytes) => map_views(maps)[i] == Some(bytes@),
            FileMap::Failed => map_views(maps)[i] is None,
        },
        failure_views(failures).len() == failures.len(),
        0 <= i < failures.len() ==> failure_views(failures)[i] == (
            failures[i].name@,
            failures[i].error,
        ),
{
}

} // verus!
