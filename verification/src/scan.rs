//! Walking the entries of a metric file.
//!
//! A file starts with a header of two 32-bit numbers, the number of bytes in
//! use and the format version. Entries follow one another from the end of the
//! header up to the bytes in use.

use crate::error::MmapError;
use crate::metric_key::{MetricKeyView, StoredMetricKey};
use crate::mmap_file::HEADER_SIZE;
use crate::native::{native_u32, read_u32, law_native_u32};
use crate::raw_entry::{
    decode_entry, entry_error, lemma_decode_names, lemma_decode_prefix, lemma_decoded_entry,
    EntryView, RawEntry, LENGTH_FIELDS_SIZE,
};
use crate::text::utf8_error;
use vstd::prelude::*;
use vstd::utf8::{decode_utf8, decode_utf8_encode_utf8, encode_utf8, valid_utf8};

verus! {

/// The number of bytes in use, as the header has it.
pub open spec fn raw_used(map: Seq<u8>) -> int {
    native_u32(map.subrange(0, 4))
}

/// The format version, as the header has it.
pub open spec fn raw_version(map: Seq<u8>) -> int {
    native_u32(map.subrange(4, 8))
}

/// The number of bytes in use: a header that says zero, or that is missing,
/// stands for an empty file.
pub open spec fn used_of(map: Seq<u8>) -> int {
    if map.len() < HEADER_SIZE || raw_used(map) == 0 {
        HEADER_SIZE as int
    } else {
        raw_used(map)
    }
}

/// The header claims bytes that the file does not have.
pub open spec fn used_overruns(map: Seq<u8>) -> bool {
    map.len() >= HEADER_SIZE && used_of(map) > map.len()
}

/// The refusal of such a header.
pub open spec fn used_error(map: Seq<u8>) -> MmapError {
    MmapError::InvalidUsed { used: used_of(map) as usize, len: map.len() as usize }
}

/// The number of bytes in use that the header claims.
pub fn claimed_used(map: &[u8]) -> (r: usize)
    ensures
        r == used_of(map@),
        0 <= used_of(map@) <= u32::MAX,
{
    if map.len() < HEADER_SIZE {
        return HEADER_SIZE;
    }
    proof {
        law_native_u32(0, map@.subrange(0, 4));
    }
    let raw: usize = read_u32(map, 0) as usize;
    if raw == 0 {
        HEADER_SIZE
    } else {
        raw
    }
}

/// The number of bytes in use.
pub fn current_used(map: &[u8]) -> (r: Result<usize, MmapError>)
    ensures
        used_overruns(map@) ==> r == Err::<usize, MmapError>(used_error(map@)),
        !used_overruns(map@) ==> r == Ok::<usize, MmapError>(used_of(map@) as usize),
        0 <= used_of(map@) <= u32::MAX,
{
    let used: usize = claimed_used(map);
    if map.len() >= HEADER_SIZE && used > map.len() {
        return Err(MmapError::InvalidUsed { used, len: map.len() });
    }
    Ok(used)
}

/// An entry found in a file: its key and where its value stands.
#[verifier::ext_equal]
pub struct FoundView {
    pub key: MetricKeyView,
    pub value_at: int,
}

/// Why a walk ended.
#[derive(Debug)]
pub enum ScanStop {
    /// No room for a further entry is in use.
    Done,
    /// The bytes in use do not hold the entry that they start.
    Malformed(MmapError),
    /// A name is not UTF-8.
    NotText(MmapError),
}

/// A walk: the entries found, where it ended, and why.
#[verifier::ext_equal]
pub struct ScanView {
    pub entries: Seq<FoundView>,
    pub end: int,
    pub stop: ScanStop,
}

/// All three names of an entry are UTF-8.
pub open spec fn is_text(e: EntryView) -> bool {
    valid_utf8(e.family) && valid_utf8(e.sample) && valid_utf8(e.labels)
}

/// The refusal of the first name of an entry that is not UTF-8.
pub open spec fn text_error(e: EntryView) -> MmapError {
    if !valid_utf8(e.family) {
        MmapError::Utf8(utf8_error(e.family))
    } else if !valid_utf8(e.sample) {
        MmapError::Utf8(utf8_error(e.sample))
    } else {
        MmapError::Utf8(utf8_error(e.labels))
    }
}

/// The key that an entry has.
pub open spec fn key_of(e: EntryView) -> MetricKeyView {
    MetricKeyView {
        family: decode_utf8(e.family),
        sample: decode_utf8(e.sample),
        labels: decode_utf8(e.labels),
    }
}

/// The walk over the bytes of `map` from `pos` to `used`.
pub open spec fn scan(map: Seq<u8>, pos: int, used: int) -> ScanView
    decreases used - pos,
{
    let rest = map.subrange(pos, used);
    if pos < 0 || used > map.len() || pos + LENGTH_FIELDS_SIZE > used {
        ScanView { entries: Seq::empty(), end: pos, stop: ScanStop::Done }
    } else {
        match decode_entry(rest) {
            None => ScanView {
                entries: Seq::empty(),
                end: pos,
                stop: ScanStop::Malformed(entry_error(rest)),
            },
            Some(e) => if !is_text(e) {
                ScanView {
                    entries: Seq::empty(),
                    end: pos,
                    stop: ScanStop::NotText(text_error(e)),
                }
            } else {
                proof {
                    lemma_decoded_entry(rest);
                }
                let tail = scan(map, pos + e.len(), used);
                ScanView {
                    entries: seq![
                        FoundView { key: key_of(e), value_at: pos + e.value_offset() },
                    ] + tail.entries,
                    end: tail.end,
                    stop: tail.stop,
                }
            },
        }
    }
}

/// An entry found in a file.
#[derive(Debug)]
pub struct CachedEntry {
    pub metric: StoredMetricKey,
    pub value_offset: usize,
}

impl View for CachedEntry {
    type V = FoundView;

    open spec fn view(&self) -> FoundView {
        FoundView { key: self.metric@, value_at: self.value_offset as int }
    }
}

/// What a list of entries says.
pub open spec fn found(entries: Seq<CachedEntry>) -> Seq<FoundView> {
    entries.map_values(|e: CachedEntry| e@)
}

/// The key of an entry.
fn entry_key(entry: &RawEntry) -> (r: Result<StoredMetricKey, MmapError>)
    requires
        entry.wf(),
    ensures
        match r {
            Ok(key) => is_text(entry@) && key@ == key_of(entry@),
            Err(e) => !is_text(entry@) && e == text_error(entry@),
        },
{
    let family = match core::str::from_utf8(entry.family_bytes()) {
        Ok(text) => text,
        Err(e) => return Err(MmapError::Utf8(e)),
    };
    let sample = match core::str::from_utf8(entry.sample_bytes()) {
        Ok(text) => text,
        Err(e) => return Err(MmapError::Utf8(e)),
    };
    let labels = match core::str::from_utf8(entry.labels_bytes()) {
        Ok(text) => text,
        Err(e) => return Err(MmapError::Utf8(e)),
    };
    Ok(StoredMetricKey::new(family, sample, labels))
}

/// Walks the entries of `map` from `pos` to `used`, appends those it finds to
/// `entries`, and says where and why it ended.
pub fn scan_entries(
    map: &[u8],
    pos: usize,
    used: usize,
    entries: &mut Vec<CachedEntry>,
) -> (r: (usize, ScanStop))
    requires
        used <= map@.len(),
    ensures
        ({
            let walk = scan(map@, pos as int, used as int);
            &&& found(final(entries)@) == found(old(entries)@) + walk.entries
            &&& r.0 == walk.end
            &&& r.1 == walk.stop
        }),
{
    let ghost before = found(entries@);
    let ghost walk = scan(map@, pos as int, used as int);
    let mut at: usize = pos;
    assert(before + walk.entries =~= found(entries@) + walk.entries);
    while at <= used && used - at >= LENGTH_FIELDS_SIZE
        invariant
            used <= map@.len(),
            before == found(old(entries)@),
            walk == scan(map@, pos as int, used as int),
            before + walk.entries == found(entries@) + scan(
                map@,
                at as int,
                used as int,
            ).entries,
            walk.end == scan(map@, at as int, used as int).end,
            walk.stop == scan(map@, at as int, used as int).stop,
        decreases used - at,
    {
        let ghost rest = map@.subrange(at as int, used as int);
        let ghost so_far = found(entries@);
        let entry = match RawEntry::from_slice(&map[at..used]) {
            Ok(entry) => entry,
            Err(e) => {
                assert(so_far + Seq::<FoundView>::empty() =~= so_far);
                return (at, ScanStop::Malformed(e));
            },
        };
        let metric = match entry_key(&entry) {
            Ok(metric) => metric,
            Err(e) => {
                assert(so_far + Seq::<FoundView>::empty() =~= so_far);
                return (at, ScanStop::NotText(e));
            },
        };
        proof {
            lemma_decoded_entry(rest);
        }
        let total_len: usize = entry.total_len();
        let value_offset: usize = at + (total_len - 8);
        let ghost this = FoundView { key: metric@, value_at: value_offset as int };
        entries.push(CachedEntry { metric, value_offset });
        at = at + total_len;
        proof {
            let tail = scan(map@, at as int, used as int).entries;
            assert(found(entries@) =~= so_far.push(this));
            assert(so_far + (seq![this] + tail) =~= so_far.push(this) + tail);
        }
    }
    assert(found(entries@) + Seq::<FoundView>::empty() =~= found(entries@));
    (at, ScanStop::Done)
}

/// The walk stays within the bytes in use, and the values it finds stand apart
/// from one another, in order.
pub proof fn lemma_scan_bounds(map: Seq<u8>, pos: int, used: int)
    requires
        0 <= pos,
        used <= map.len(),
    ensures
        ({
            let walk = scan(map, pos, used);
            &&& pos <= walk.end
            &&& walk.end <= used || walk.end == pos
            &&& forall|i: int|
                0 <= i < walk.entries.len() ==> pos + LENGTH_FIELDS_SIZE <= (
                #[trigger] walk.entries[i]).value_at && walk.entries[i].value_at + 8 <= walk.end
            &&& forall|i: int, j: int|
                0 <= i < j < walk.entries.len() ==> (#[trigger] walk.entries[i]).value_at + 8 <= (
                #[trigger] walk.entries[j]).value_at
        }),
    decreases used - pos,
{
    let rest = map.subrange(pos, used);
    if pos + LENGTH_FIELDS_SIZE <= used && decode_entry(rest) is Some && is_text(
        decode_entry(rest).unwrap(),
    ) {
        let e = decode_entry(rest).unwrap();
        lemma_decoded_entry(rest);
        lemma_scan_bounds(map, pos + e.len(), used);
        let walk = scan(map, pos, used);
        let tail = scan(map, pos + e.len(), used);
        assert forall|i: int| 1 <= i < walk.entries.len() implies #[trigger] walk.entries[i]
            == tail.entries[i - 1] by {}
    }
}

/// A walk that starts at a multiple of eight ends at one, and finds every value at
/// one.
pub proof fn lemma_scan_aligned(map: Seq<u8>, pos: int, used: int)
    requires
        0 <= pos,
        pos % 8 == 0,
        used <= map.len(),
    ensures
        scan(map, pos, used).end % 8 == 0,
        forall|i: int|
            0 <= i < scan(map, pos, used).entries.len() ==> (#[trigger] scan(
                map,
                pos,
                used,
            ).entries[i]).value_at % 8 == 0,
    decreases used - pos,
{
    let rest = map.subrange(pos, used);
    if pos + LENGTH_FIELDS_SIZE <= used && decode_entry(rest) is Some && is_text(
        decode_entry(rest).unwrap(),
    ) {
        let e = decode_entry(rest).unwrap();
        lemma_decoded_entry(rest);
        lemma_scan_aligned(map, pos + e.len(), used);
        let walk = scan(map, pos, used);
        let tail = scan(map, pos + e.len(), used);
        assert forall|i: int| 0 <= i < walk.entries.len() implies (
        #[trigger] walk.entries[i]).value_at % 8 == 0 by {
            if i > 0 {
                assert(walk.entries[i] == tail.entries[i - 1]);
            }
        }
    }
}

/// A walk that ran to its bound goes on from there when more bytes are in use.
pub proof fn lemma_scan_extend(a: Seq<u8>, b: Seq<u8>, pos: int, mid: int, used: int)
    requires
        0 <= pos,
        mid <= a.len(),
        mid <= used <= b.len(),
        scan(a, pos, mid).stop is Done,
        scan(a, pos, mid).end == mid,
        forall|i: int| pos <= i < mid ==> a[i] == b[i],
    ensures
        scan(b, pos, used).entries == scan(a, pos, mid).entries + scan(b, mid, used).entries,
        scan(b, pos, used).end == scan(b, mid, used).end,
        scan(b, pos, used).stop == scan(b, mid, used).stop,
    decreases mid - pos,
{
    let rest_a = a.subrange(pos, mid);
    let rest_b = b.subrange(pos, used);
    if pos + LENGTH_FIELDS_SIZE > mid {
        assert(scan(b, pos, used).entries =~= scan(a, pos, mid).entries + scan(
            b,
            mid,
            used,
        ).entries);
    } else {
        let e = decode_entry(rest_a).unwrap();
        lemma_decoded_entry(rest_a);
        lemma_decode_prefix(rest_a, rest_b);
        lemma_scan_extend(a, b, pos + e.len(), mid, used);
        let this = seq![FoundView { key: key_of(e), value_at: pos + e.value_offset() }];
        assert(this + (scan(a, pos + e.len(), mid).entries + scan(b, mid, used).entries) =~= (this
            + scan(a, pos + e.len(), mid).entries) + scan(b, mid, used).entries);
    }
}

/// A walk that stopped early is a whole walk over the bytes up to there.
pub proof fn lemma_scan_truncate(map: Seq<u8>, pos: int, used: int)
    requires
        0 <= pos,
        used <= map.len(),
    ensures
        scan(map, pos, scan(map, pos, used).end).entries == scan(map, pos, used).entries,
        scan(map, pos, scan(map, pos, used).end).end == scan(map, pos, used).end,
        scan(map, pos, scan(map, pos, used).end).stop is Done,
    decreases used - pos,
{
    let walk = scan(map, pos, used);
    let rest = map.subrange(pos, used);
    lemma_scan_bounds(map, pos, used);
    if pos + LENGTH_FIELDS_SIZE <= used && decode_entry(rest) is Some && is_text(
        decode_entry(rest).unwrap(),
    ) {
        let e = decode_entry(rest).unwrap();
        lemma_decoded_entry(rest);
        lemma_scan_bounds(map, pos + e.len(), used);
        lemma_scan_truncate(map, pos + e.len(), used);
        let short = map.subrange(pos, walk.end);
        lemma_decode_prefix(rest, short);
    }
}

/// Writing over the value of an entry changes no key and moves no entry.
pub proof fn lemma_scan_values(a: Seq<u8>, b: Seq<u8>, pos: int, used: int, k: int)
    requires
        0 <= pos,
        used <= a.len(),
        a.len() == b.len(),
        0 <= k < scan(a, pos, used).entries.len(),
        forall|i: int|
            pos <= i < used && !(scan(a, pos, used).entries[k].value_at <= i < scan(
                a,
                pos,
                used,
            ).entries[k].value_at + 8) ==> a[i] == b[i],
    ensures
        scan(b, pos, used) == scan(a, pos, used),
    decreases used - pos,
{
    let rest_a = a.subrange(pos, used);
    let rest_b = b.subrange(pos, used);
    let walk = scan(a, pos, used);
    let e = decode_entry(rest_a).unwrap();
    lemma_decoded_entry(rest_a);
    let next = pos + e.len();
    let tail = scan(a, next, used);
    lemma_scan_bounds(a, next, used);
    if k == 0 {
        lemma_decode_names(rest_a, rest_b);
        assert(walk.entries[0].value_at == pos + e.value_offset());
        lemma_scan_same(a, b, next, used);
    } else {
        assert(walk.entries[k] == tail.entries[k - 1]);
        lemma_decode_prefix(rest_a, rest_b);
        lemma_scan_values(a, b, next, used, k - 1);
    }
}

/// The walk depends on the bytes between its bounds alone.
pub proof fn lemma_scan_same(a: Seq<u8>, b: Seq<u8>, pos: int, used: int)
    requires
        0 <= pos,
        used <= a.len(),
        used <= b.len(),
        forall|i: int| pos <= i < used ==> a[i] == b[i],
    ensures
        scan(b, pos, used) == scan(a, pos, used),
    decreases used - pos,
{
    let rest_a = a.subrange(pos, used);
    let rest_b = b.subrange(pos, used);
    if pos <= used {
        assert(rest_a =~= rest_b);
        if pos + LENGTH_FIELDS_SIZE <= used && decode_entry(rest_a) is Some {
            lemma_decoded_entry(rest_a);
            lemma_scan_same(a, b, pos + decode_entry(rest_a).unwrap().len(), used);
        }
    }
}

/// Bytes that are not in use are invisible: whatever they hold, a walk finds
/// the same entries.
pub proof fn law_unused_bytes_invisible(a: Seq<u8>, b: Seq<u8>)
    requires
        !used_overruns(a),
        a.len() >= HEADER_SIZE,
        b.len() >= used_of(a),
        used_of(b) == used_of(a),
        forall|i: int| HEADER_SIZE <= i < used_of(a) ==> a[i] == b[i],
    ensures
        scan(b, HEADER_SIZE as int, used_of(b)) == scan(a, HEADER_SIZE as int, used_of(a)),
{
    lemma_scan_same(a, b, HEADER_SIZE as int, used_of(a));
}

/// The header of a file: the first four bytes say how many bytes are in use, where zero
/// stands for the eight of the header itself, and the next four say the version. A file
/// that is shorter than its header has nothing in use. More bytes in use than there are
/// make the header one that claims too much, and its refusal says both numbers.
pub proof fn law_header(map: Seq<u8>)
    ensures
        map.len() < 8 ==> used_of(map) == 8 && !used_overruns(map),
        map.len() >= 8 ==> ({
            let word = native_u32(map.subrange(0, 4));
            &&& used_of(map) == (if word == 0 { 8 } else { word })
            &&& raw_version(map) == native_u32(map.subrange(4, 8))
            &&& used_overruns(map) <==> word > map.len()
        }),
        used_error(map) == (MmapError::InvalidUsed {
            used: used_of(map) as usize,
            len: map.len() as usize,
        }),
{
}

/// Where a walk ends it ends for a reason: too few bytes are left for the lengths of a
/// further entry, or the bytes that are left do not hold the entry they start, or they
/// start with one whose names are not UTF-8.
pub proof fn law_walk_end(map: Seq<u8>, pos: int, used: int)
    requires
        0 <= pos <= used <= map.len(),
    ensures
        ({
            let walk = scan(map, pos, used);
            let rest = map.subrange(walk.end, used);
            &&& pos <= walk.end <= used
            &&& walk.stop is Done <==> used - walk.end < 12
            &&& walk.stop is Malformed <==> used - walk.end >= 12 && decode_entry(rest) is None
            &&& walk.stop is NotText <==> used - walk.end >= 12 && decode_entry(rest) is Some && !(
            valid_utf8(decode_entry(rest).unwrap().family) && valid_utf8(
                decode_entry(rest).unwrap().sample,
            ) && valid_utf8(decode_entry(rest).unwrap().labels))
        }),
    decreases used - pos,
{
    let rest = map.subrange(pos, used);
    if pos + LENGTH_FIELDS_SIZE <= used && decode_entry(rest) is Some && is_text(
        decode_entry(rest).unwrap(),
    ) {
        lemma_decoded_entry(rest);
        law_walk_end(map, pos + decode_entry(rest).unwrap().len(), used);
    }
}

/// A walk over bytes that start with an entry of UTF-8 names finds that entry, under the
/// names as text and with its value in its last eight bytes, and goes on behind it.
pub proof fn law_walk_step(map: Seq<u8>, pos: int, used: int, entry: EntryView)
    requires
        0 <= pos <= used <= map.len(),
        decode_entry(map.subrange(pos, used)) == Some(entry),
        valid_utf8(entry.family),
        valid_utf8(entry.sample),
        valid_utf8(entry.labels),
    ensures
        ({
            let walk = scan(map, pos, used);
            let tail = scan(map, pos + entry.len(), used);
            &&& walk.entries.len() == tail.entries.len() + 1
            &&& walk.entries[0].key.family == decode_utf8(entry.family)
            &&& walk.entries[0].key.sample == decode_utf8(entry.sample)
            &&& walk.entries[0].key.labels == decode_utf8(entry.labels)
            &&& walk.entries[0].value_at == pos + entry.len() - 8
            &&& walk.entries.skip(1) == tail.entries
            &&& walk.end == tail.end && walk.stop == tail.stop
        }),
{
    lemma_decoded_entry(map.subrange(pos, used));
    let tail = scan(map, pos + entry.len(), used);
    assert(scan(map, pos, used).entries.skip(1) =~= tail.entries);
}

/// An entry is text exactly if its three names are UTF-8, and is refused for the first of
/// them that is not.
pub proof fn law_text_error(e: EntryView, k: int)
    requires
        0 <= k < 3,
    ensures
        ({
            let names = seq![e.family, e.sample, e.labels];
            &&& is_text(e) <==> forall|i: int| 0 <= i < 3 ==> valid_utf8(#[trigger] names[i])
            &&& !valid_utf8(names[k]) && (forall|i: int|
                0 <= i < k ==> valid_utf8(#[trigger] names[i])) ==> text_error(e)
                == MmapError::Utf8(utf8_error(names[k]))
        }),
{
    let names = seq![e.family, e.sample, e.labels];
    assert(names[0] == e.family && names[1] == e.sample && names[2] == e.labels);
    assert(valid_utf8(names[0]) == valid_utf8(e.family));
    assert(valid_utf8(names[1]) == valid_utf8(e.sample));
    assert(valid_utf8(names[2]) == valid_utf8(e.labels));
}

/// What an entry says under its names: its key has the three texts whose UTF-8 they are.
pub proof fn law_key_of(e: EntryView)
    requires
        is_text(e),
    ensures
        encode_utf8(key_of(e).family) == e.family,
        encode_utf8(key_of(e).sample) == e.sample,
        encode_utf8(key_of(e).labels) == e.labels,
{
    decode_utf8_encode_utf8(e.family);
    decode_utf8_encode_utf8(e.sample);
    decode_utf8_encode_utf8(e.labels);
}

/// What was found of an entry says what its fields hold.
pub proof fn law_found_says_its_fields(entries: Seq<CachedEntry>, i: int)
    requires
        0 <= i < entries.len(),
    ensures
        found(entries).len() == entries.len(),
        found(entries)[i].key == entries[i].metric@,
        found(entries)[i].value_at == entries[i].value_offset,
{
}

} // verus!
