//! A metric file: its header, its index and its values.
//!
//! The functions here work on the bytes of a mapped file. Values are bit
//! patterns of doubles; arithmetic on them is handed in by the caller.

use crate::error::{checked_add, MmapError};
use crate::key_table::{row_map, KeyTable};
use crate::metric_key::{
    distinct_names, encode_labels, label_pairs, labels_text, law_labels_canonical, MetricKeyView,
    StoredMetricKey,
};
use crate::native::{
    fill_bytes, law_native_u32, law_native_u64, native_u32, native_u32_bytes, native_u64,
    native_u64_bytes, overwrite, read_u32, read_u64, write_u32,
};
use crate::publish::{visible, MapView, SharedMap};
use crate::raw_entry::{
    law_entry_roundtrip, lemma_decoded_entry, lengths_fit, EntryView, RawEntry,
};
use crate::scan::{
    current_used, found, is_text, key_of, lemma_scan_aligned, lemma_scan_bounds,
    lemma_scan_extend, lemma_scan_same, lemma_scan_values, raw_used, raw_version, scan,
    scan_entries, used_error, used_of, used_overruns, CachedEntry, FoundView, ScanStop,
};
use vstd::arithmetic::power2::{lemma2_to64, lemma_pow2_unfold, pow2};
use vstd::prelude::*;
use vstd::utf8::{encode_utf8, encode_utf8_decode_utf8, encode_utf8_valid_utf8};

verus! {

/// Bytes taken by the header.
pub const HEADER_SIZE: usize = 8;

/// The version of the file format described here.
pub const FILE_FORMAT_VERSION: u32 = 2;

/// An empty file of `len` bytes.
pub open spec fn empty_file(len: nat) -> Seq<u8> {
    overwrite(
        overwrite(Seq::new(len, |i: int| 0u8), 0, native_u32_bytes(HEADER_SIZE as int)),
        4,
        native_u32_bytes(FILE_FORMAT_VERSION as int),
    )
}

/// The file that opening leaves behind: a file of another version is emptied,
/// a header that says nothing is filled in.
pub open spec fn opened_file(map: Seq<u8>) -> Seq<u8> {
    if raw_version(map) != FILE_FORMAT_VERSION {
        empty_file(map.len())
    } else if raw_used(map) == 0 {
        overwrite(map, 0, native_u32_bytes(HEADER_SIZE as int))
    } else {
        map
    }
}

/// Where each key has its value; of two entries with one key the later counts.
pub open spec fn positions_of(entries: Seq<FoundView>) -> Map<MetricKeyView, usize>
    decreases entries.len(),
{
    if entries.len() == 0 {
        Map::empty()
    } else {
        positions_of(entries.drop_last()).insert(
            entries.last().key,
            entries.last().value_at as usize,
        )
    }
}

/// The entries of a file.
pub open spec fn entries_of(map: Seq<u8>) -> Seq<FoundView> {
    scan(map, HEADER_SIZE as int, used_of(map)).entries
}

/// The value at a place in a file.
pub open spec fn value_at(map: Seq<u8>, at: int) -> u64 {
    native_u64(map.subrange(at, at + 8)) as u64
}

/// What a file says: the value of each key.
pub open spec fn contents(map: Seq<u8>) -> Map<MetricKeyView, u64> {
    let positions = positions_of(entries_of(map));
    Map::new(
        |key: MetricKeyView| positions.dom().contains(key),
        |key: MetricKeyView| value_at(map, positions[key] as int),
    )
}

/// The entries of a file fill its bytes in use, with nothing left over.
pub open spec fn complete(map: Seq<u8>) -> bool {
    let walk = scan(map, HEADER_SIZE as int, used_of(map));
    &&& map.len() >= HEADER_SIZE
    &&& HEADER_SIZE <= used_of(map)
    &&& !used_overruns(map)
    &&& walk.stop is Done
    &&& walk.end == used_of(map)
}

/// The entry that holds a key and a value.
pub open spec fn entry_for(key: MetricKeyView, bits: u64) -> EntryView {
    EntryView {
        family: encode_utf8(key.family),
        sample: encode_utf8(key.sample),
        labels: encode_utf8(key.labels),
        bits,
    }
}

/// The names of a key are short enough for their length fields.
pub open spec fn key_fits(key: MetricKeyView) -> bool {
    lengths_fit(
        encode_utf8(key.family).len() as int,
        encode_utf8(key.sample).len() as int,
        encode_utf8(key.labels).len() as int,
    )
}

/// The file with one more entry written behind the bytes in use, which do not
/// cover it yet.
pub open spec fn written(map: Seq<u8>, key: MetricKeyView, bits: u64) -> Seq<u8> {
    overwrite(map, used_of(map), entry_for(key, bits).bytes())
}

/// The file with one more entry.
pub open spec fn appended(map: Seq<u8>, key: MetricKeyView, bits: u64) -> Seq<u8> {
    overwrite(
        written(map, key, bits),
        0,
        native_u32_bytes(used_of(map) + entry_for(key, bits).len()),
    )
}

/// The key of a metric whose labels are given one by one.
pub open spec fn labelled_key(
    family: Seq<char>,
    sample: Seq<char>,
    labels: Seq<(&str, &str)>,
) -> MetricKeyView {
    MetricKeyView { family, sample, labels: labels_text(label_pairs(labels)) }
}

/// Labels of distinct names stand for one key in whatever order they are given.
pub proof fn law_label_order_does_not_matter(
    family: Seq<char>,
    sample: Seq<char>,
    a: Seq<(&str, &str)>,
    b: Seq<(&str, &str)>,
)
    requires
        label_pairs(a).to_multiset() == label_pairs(b).to_multiset(),
        distinct_names(label_pairs(a)),
        distinct_names(label_pairs(b)),
    ensures
        labelled_key(family, sample, a) == labelled_key(family, sample, b),
{
    law_labels_canonical(label_pairs(a), label_pairs(b));
}

/// A value written over the one at a place, in one step.
pub open spec fn revalued(map: MapView, at: int, bits: u64) -> MapView {
    map.put(at, native_u64_bytes(bits as int), true)
}

/// An entry written behind the bytes in use, and then a fence: the bytes in use do not
/// cover it yet.
pub open spec fn prepared(map: MapView, key: MetricKeyView, bits: u64) -> MapView {
    map.put(used_of(map.bytes), entry_for(key, bits).bytes(), false).fenced()
}

/// An entry published: written and fenced, and only then covered by the bytes in use, in
/// one step.
pub open spec fn published(map: MapView, key: MetricKeyView, bits: u64) -> MapView {
    prepared(map, key, bits).put(
        0,
        native_u32_bytes(used_of(map.bytes) + entry_for(key, bits).len()),
        true,
    )
}

/// What giving a key a new value does to the index and, step by step, to the file, and
/// what it answers. `outcome` relates the value before to the value after.
pub open spec fn upserted(
    positions: Map<MetricKeyView, usize>,
    map: MapView,
    key: MetricKeyView,
    outcome: spec_fn(u64, u64) -> bool,
    new_positions: Map<MetricKeyView, usize>,
    new_map: MapView,
    r: Result<u64, MmapError>,
) -> bool {
    let room = map.bytes.len();
    let used = used_of(map.bytes);
    let len = entry_for(key, 0).len();
    if positions.dom().contains(key) {
        let at = positions[key];
        &&& new_positions == positions
        &&& if at + 8 > room {
            &&& new_map == map
            &&& r == Err::<u64, MmapError>(
                MmapError::OutOfBounds { offset: (at + 8) as usize, len: room as usize },
            )
        } else {
            &&& r is Ok
            &&& outcome(value_at(map.bytes, at as int), r.unwrap())
            &&& new_map == revalued(map, at as int, r.unwrap())
        }
    } else if used_overruns(map.bytes) {
        new_positions == positions && new_map == map && r == Err::<u64, MmapError>(
            used_error(map.bytes),
        )
    } else if !key_fits(key) {
        new_positions == positions && new_map == map && r == Err::<u64, MmapError>(
            MmapError::KeyTooLong,
        )
    } else if used + len > usize::MAX {
        new_positions == positions && new_map == map && r == Err::<u64, MmapError>(
            MmapError::Overflow,
        )
    } else if used + len > room {
        new_positions == positions && new_map == map && r == Err::<u64, MmapError>(
            MmapError::EntryTooLarge { needed: len as usize, available: (room - used) as usize },
        )
    } else if used + len > u32::MAX {
        &&& new_positions == positions
        &&& r == Err::<u64, MmapError>(MmapError::Overflow)
        &&& exists|bits: u64| #[trigger] outcome(0, bits) && new_map == prepared(map, key, bits)
    } else {
        &&& r is Ok
        &&& outcome(0, r.unwrap())
        &&& new_map == published(map, key, r.unwrap())
        &&& new_positions == positions.insert(
            key,
            (used + entry_for(key, 0).value_offset()) as usize,
        )
    }
}

proof fn lemma_upserted_weaker(
    positions: Map<MetricKeyView, usize>,
    map: MapView,
    key: MetricKeyView,
    strong: spec_fn(u64, u64) -> bool,
    weak: spec_fn(u64, u64) -> bool,
    new_positions: Map<MetricKeyView, usize>,
    new_map: MapView,
    r: Result<u64, MmapError>,
)
    requires
        upserted(positions, map, key, strong, new_positions, new_map, r),
        forall|before: u64, after: u64| #[trigger]
            strong(before, after) ==> weak(before, after),
    ensures
        upserted(positions, map, key, weak, new_positions, new_map, r),
{
    if exists|bits: u64| #[trigger] strong(0, bits) && new_map == prepared(map, key, bits) {
        let bits = choose|bits: u64| #[trigger]
            strong(0, bits) && new_map == prepared(map, key, bits);
        assert(weak(0, bits));
    }
}

/// The next length of a file that must hold `needed` bytes: the length it has,
/// doubled until it suffices.
pub open spec fn doubled(len: int, needed: int) -> int
    decreases
        (if len < needed {
            needed - len
        } else {
            0
        }),
{
    if len >= needed || len <= 0 {
        len
    } else {
        doubled(2 * len, needed)
    }
}

/// `min` rounded up to a multiple of the page size.
pub open spec fn page_aligned(min: int, page_size: int) -> int {
    if min % page_size == 0 {
        min
    } else {
        min + page_size - min % page_size
    }
}

/// Rounds a length up to whole pages.
pub fn page_aligned_size(min: usize, page_size: usize) -> (r: Result<usize, MmapError>)
    requires
        page_size > 0,
    ensures
        page_aligned(min as int, page_size as int) <= usize::MAX ==> r == Ok::<usize, MmapError>(
            page_aligned(min as int, page_size as int) as usize,
        ),
        page_aligned(min as int, page_size as int) > usize::MAX ==> r == Err::<usize, MmapError>(
            MmapError::Overflow,
        ),
{
    let rem: usize = min % page_size;
    if rem == 0 {
        Ok(min)
    } else {
        checked_add(min, page_size - rem)
    }
}

/// The length that a file of `file_len` bytes must be given before it is
/// mapped, if its own does not hold the header.
pub fn initial_size(file_len: usize, page_size: usize) -> (r: Result<Option<usize>, MmapError>)
    requires
        page_size > 0,
    ensures
        file_len >= HEADER_SIZE ==> r == Ok::<Option<usize>, MmapError>(None),
        file_len < HEADER_SIZE ==> r == (if page_aligned(HEADER_SIZE as int, page_size as int)
            <= usize::MAX {
            Ok::<Option<usize>, MmapError>(
                Some(page_aligned(HEADER_SIZE as int, page_size as int) as usize),
            )
        } else {
            Err::<Option<usize>, MmapError>(MmapError::Overflow)
        }),
{
    if file_len >= HEADER_SIZE {
        return Ok(None);
    }
    match page_aligned_size(HEADER_SIZE, page_size) {
        Ok(size) => Ok(Some(size)),
        Err(e) => Err(e),
    }
}

/// The length that a file of `len` bytes must be given to hold `needed` bytes,
/// if its own does not suffice.
pub fn ensure_capacity(len: usize, needed: usize, page_size: usize) -> (r: Result<
    Option<usize>,
    MmapError,
>)
    requires
        page_size > 0,
    ensures
        len >= needed ==> r == Ok::<Option<usize>, MmapError>(None),
        len < needed ==> ({
            let start = if len < HEADER_SIZE {
                HEADER_SIZE as int
            } else {
                len as int
            };
            let size = page_aligned(doubled(start, needed as int), page_size as int);
            r == if size <= usize::MAX {
                Ok::<Option<usize>, MmapError>(Some(size as usize))
            } else {
                Err::<Option<usize>, MmapError>(MmapError::Overflow)
            }
        }),
{
    if len >= needed {
        return Ok(None);
    }
    let mut new_len: usize = if len < HEADER_SIZE {
        HEADER_SIZE
    } else {
        len
    };
    let ghost start = new_len as int;
    while new_len < needed
        invariant
            new_len > 0,
            page_size > 0,
            len < needed,
            start == (if len < HEADER_SIZE {
                HEADER_SIZE as int
            } else {
                len as int
            }),
            doubled(start, needed as int) == doubled(new_len as int, needed as int),
        decreases
            (if new_len < needed {
                needed - new_len
            } else {
                0
            }),
    {
        new_len = match checked_add(new_len, new_len) {
            Ok(sum) => sum,
            Err(e) => {
                proof {
                    lemma_doubled(2 * new_len as int, needed as int);
                    lemma_page_aligned(doubled(start, needed as int), page_size as int);
                }
                return Err(e);
            },
        };
    }
    match page_aligned_size(new_len, page_size) {
        Ok(size) => Ok(Some(size)),
        Err(e) => Err(e),
    }
}

proof fn lemma_doubled(len: int, needed: int)
    requires
        len > 0,
    ensures
        doubled(len, needed) >= needed,
        doubled(len, needed) >= len,
        needed <= len || doubled(len, needed) < 2 * needed,
    decreases
        (if len < needed {
            needed - len
        } else {
            0
        }),
{
    if len < needed {
        lemma_doubled(2 * len, needed);
    }
}

proof fn lemma_page_aligned(min: int, page_size: int)
    requires
        page_size > 0,
        min >= 0,
    ensures
        min <= page_aligned(min, page_size) < min + page_size,
        page_aligned(min, page_size) % page_size == 0,
{
    if min % page_size != 0 {
        let rem = min % page_size;
        let q = min / page_size;
        assert(min == page_size * q + rem && 0 <= rem < page_size) by (nonlinear_arith)
            requires
                page_size > 0,
                rem == min % page_size,
                q == min / page_size,
        ;
        assert((min + page_size - rem) % page_size == 0) by (nonlinear_arith)
            requires
                page_size > 0,
                min == page_size * q + rem,
        ;
    }
}

/// A file that grows gets whole pages, room for what is needed, and less than
/// twice that and one page, unless it was that large before.
pub proof fn law_growth(len: int, needed: int, page_size: int)
    requires
        page_size > 0,
        0 < len,
    ensures
        page_aligned(doubled(len, needed), page_size) >= needed,
        page_aligned(doubled(len, needed), page_size) >= len,
        page_aligned(doubled(len, needed), page_size) % page_size == 0,
        len < needed ==> page_aligned(doubled(len, needed), page_size) < 2 * needed + page_size,
{
    lemma_doubled(len, needed);
    lemma_page_aligned(doubled(len, needed), page_size);
}

/// A key has the place of an entry that was found under it.
pub(crate) proof fn lemma_positions(entries: Seq<FoundView>, key: MetricKeyView)
    ensures
        positions_of(entries).dom().contains(key) <==> exists|i: int|
            0 <= i < entries.len() && (#[trigger] entries[i]).key == key,
        positions_of(entries).dom().contains(key) ==> exists|i: int|
            0 <= i < entries.len() && (#[trigger] entries[i]).key == key
                && entries[i].value_at as usize == positions_of(entries)[key],
    decreases entries.len(),
{
    if entries.len() > 0 {
        let init = entries.drop_last();
        lemma_positions(init, key);
        if entries.last().key == key {
            assert(entries[entries.len() - 1].key == key);
        } else {
            if positions_of(init).dom().contains(key) {
                let i = choose|i: int|
                    0 <= i < init.len() && (#[trigger] init[i]).key == key
                        && init[i].value_at as usize == positions_of(init)[key];
                assert(entries[i].key == key);
            }
            if exists|i: int| 0 <= i < entries.len() && (#[trigger] entries[i]).key == key {
                let i = choose|i: int|
                    0 <= i < entries.len() && (#[trigger] entries[i]).key == key;
                assert(init[i].key == key);
            }
        }
    }
}

/// In a complete file the value of a key stands behind the header and within the
/// bytes in use.
pub(crate) proof fn lemma_position_bounds(map: Seq<u8>, key: MetricKeyView)
    requires
        !used_overruns(map),
        map.len() >= HEADER_SIZE,
        positions_of(entries_of(map)).dom().contains(key),
    ensures
        HEADER_SIZE + 12 <= positions_of(entries_of(map))[key],
        positions_of(entries_of(map))[key] + 8 <= used_of(map) <= map.len(),
        used_of(map) <= u32::MAX,
        exists|i: int|
            0 <= i < entries_of(map).len() && (#[trigger] entries_of(map)[i]).key == key
                && entries_of(map)[i].value_at == positions_of(entries_of(map))[key],
{
    law_native_u32(0, map.subrange(0, 4));
    lemma_positions(entries_of(map), key);
    lemma_scan_bounds(map, HEADER_SIZE as int, used_of(map));
    let i = choose|i: int|
        0 <= i < entries_of(map).len() && (#[trigger] entries_of(map)[i]).key == key
            && entries_of(map)[i].value_at as usize == positions_of(entries_of(map))[key];
    assert(HEADER_SIZE + 12 <= entries_of(map)[i].value_at);
}

/// Two keys of a complete file have their values in different places.
proof fn lemma_positions_apart(map: Seq<u8>, a: MetricKeyView, b: MetricKeyView)
    requires
        !used_overruns(map),
        map.len() >= HEADER_SIZE,
        positions_of(entries_of(map)).dom().contains(a),
        positions_of(entries_of(map)).dom().contains(b),
        a != b,
    ensures
        ({
            let p = positions_of(entries_of(map));
            p[a] + 8 <= p[b] || p[b] + 8 <= p[a]
        }),
{
    let p = positions_of(entries_of(map));
    let entries = entries_of(map);
    lemma_position_bounds(map, a);
    lemma_position_bounds(map, b);
    lemma_scan_bounds(map, HEADER_SIZE as int, used_of(map));
    let i = choose|i: int|
        0 <= i < entries.len() && (#[trigger] entries[i]).key == a && entries[i].value_at == p[a];
    let j = choose|j: int|
        0 <= j < entries.len() && (#[trigger] entries[j]).key == b && entries[j].value_at == p[b];
    assert(i != j);
}

/// Writing over the value of a key gives that key the new value and changes
/// nothing else.
pub proof fn law_update(map: Seq<u8>, key: MetricKeyView, bits: u64)
    requires
        complete(map),
        positions_of(entries_of(map)).dom().contains(key),
    ensures
        ({
            let at = positions_of(entries_of(map))[key];
            let new_map = overwrite(map, at as int, native_u64_bytes(bits as int));
            &&& complete(new_map)
            &&& entries_of(new_map) == entries_of(map)
            &&& contents(new_map) == contents(map).insert(key, bits)
            &&& raw_version(new_map) == raw_version(map)
        }),
{
    let p = positions_of(entries_of(map));
    let at = p[key] as int;
    let new_map = overwrite(map, at, native_u64_bytes(bits as int));
    let used = used_of(map);
    law_native_u64(bits as int, map.subrange(at, at + 8));
    lemma_position_bounds(map, key);
    let k = choose|i: int|
        0 <= i < entries_of(map).len() && (#[trigger] entries_of(map)[i]).key == key
            && entries_of(map)[i].value_at == p[key];
    assert(new_map.subrange(0, 4) =~= map.subrange(0, 4));
    assert(new_map.subrange(4, 8) =~= map.subrange(4, 8));
    assert(used_of(new_map) == used);
    lemma_scan_values(map, new_map, HEADER_SIZE as int, used, k);
    assert forall|other: MetricKeyView| #[trigger]
        contents(new_map).dom().contains(other) implies contents(new_map)[other] == contents(
        map,
    ).insert(key, bits)[other] by {
        lemma_position_bounds(map, other);
        let there = p[other] as int;
        if other == key {
            assert(new_map.subrange(at, at + 8) =~= native_u64_bytes(bits as int));
        } else {
            lemma_positions_apart(map, key, other);
            assert(new_map.subrange(there, there + 8) =~= map.subrange(there, there + 8));
        }
    }
    assert(contents(new_map) =~= contents(map).insert(key, bits));
}

/// A further entry adds its key and changes nothing else.
pub proof fn law_append(map: Seq<u8>, key: MetricKeyView, bits: u64)
    requires
        complete(map),
        key_fits(key),
        used_of(map) + entry_for(key, bits).len() <= map.len(),
        used_of(map) + entry_for(key, bits).len() <= u32::MAX,
    ensures
        ({
            let new_map = appended(map, key, bits);
            let value_at = used_of(map) + entry_for(key, bits).value_offset();
            &&& complete(new_map)
            &&& entries_of(new_map) == entries_of(map).push(FoundView { key, value_at })
            &&& positions_of(entries_of(new_map)) == positions_of(entries_of(map)).insert(
                key,
                value_at as usize,
            )
            &&& contents(new_map) == contents(map).insert(key, bits)
            &&& raw_version(new_map) == raw_version(map)
        }),
{
    let e = entry_for(key, bits);
    let used = used_of(map);
    let new_used = used + e.len();
    let new_map = appended(map, key, bits);
    let this = FoundView { key, value_at: used + e.value_offset() };
    law_entry_roundtrip(e, Seq::empty());
    law_native_u32(new_used, Seq::empty());
    assert(e.bytes() + Seq::<u8>::empty() =~= e.bytes());
    assert(new_map.subrange(0, 4) =~= native_u32_bytes(new_used));
    assert(new_map.subrange(4, 8) =~= map.subrange(4, 8));
    lemma_decoded_entry(e.bytes());
    assert(used_of(new_map) == new_used);
    let rest = new_map.subrange(used, new_used);
    assert(rest =~= e.bytes());
    assert(is_text(e)) by {
        encode_utf8_valid_utf8(key.family);
        encode_utf8_valid_utf8(key.sample);
        encode_utf8_valid_utf8(key.labels);
    }
    assert(key_of(e) =~= key) by {
        encode_utf8_decode_utf8(key.family);
        encode_utf8_decode_utf8(key.sample);
        encode_utf8_decode_utf8(key.labels);
    }
    let tail = scan(new_map, new_used, new_used);
    assert(tail.entries =~= Seq::<FoundView>::empty() && tail.end == new_used && tail.stop is Done);
    assert(scan(new_map, used, new_used).entries =~= seq![this]);
    lemma_scan_extend(map, new_map, HEADER_SIZE as int, used, new_used);
    assert(entries_of(new_map) =~= entries_of(map).push(this));
    assert(entries_of(new_map).drop_last() =~= entries_of(map));
    let p = positions_of(entries_of(map));
    let q = positions_of(entries_of(new_map));
    assert forall|other: MetricKeyView| #[trigger]
        contents(new_map).dom().contains(other) implies contents(new_map)[other] == contents(
        map,
    ).insert(key, bits)[other] by {
        if other == key {
            let at = e.value_offset();
            assert(rest.subrange(at, at + 8) =~= new_map.subrange(used + at, used + at + 8));
        } else {
            lemma_position_bounds(map, other);
            let there = p[other] as int;
            assert(new_map.subrange(there, there + 8) =~= map.subrange(there, there + 8));
        }
    }
    assert(contents(new_map) =~= contents(map).insert(key, bits));
}

/// A reader sees nothing of what is written behind the bytes in use until the
/// header covers it: neither while an entry is being written nor when the file
/// has only grown.
pub proof fn law_publication(map: Seq<u8>, other: Seq<u8>)
    requires
        complete(map),
        other.len() >= used_of(map),
        forall|i: int| 0 <= i < used_of(map) ==> map[i] == other[i],
    ensures
        complete(other),
        entries_of(other) == entries_of(map),
        contents(other) == contents(map),
        raw_version(other) == raw_version(map),
{
    assert(map.subrange(0, 4) =~= other.subrange(0, 4));
    assert(map.subrange(4, 8) =~= other.subrange(4, 8));
    lemma_scan_same(map, other, HEADER_SIZE as int, used_of(map));
    assert forall|key: MetricKeyView| #[trigger]
        contents(other).dom().contains(key) implies contents(other)[key] == contents(map)[key] by {
        lemma_position_bounds(map, key);
        let at = positions_of(entries_of(map))[key] as int;
        assert(map.subrange(at, at + 8) =~= other.subrange(at, at + 8));
    }
    assert(contents(other) =~= contents(map));
}

/// An empty file is complete, is of the current version, and says nothing.
pub proof fn law_empty_file(len: nat)
    requires
        len >= HEADER_SIZE,
    ensures
        complete(empty_file(len)),
        entries_of(empty_file(len)) == Seq::<FoundView>::empty(),
        contents(empty_file(len)) == Map::<MetricKeyView, u64>::empty(),
        raw_version(empty_file(len)) == FILE_FORMAT_VERSION,
{
    let map = empty_file(len);
    law_native_u32(HEADER_SIZE as int, Seq::empty());
    law_native_u32(FILE_FORMAT_VERSION as int, Seq::empty());
    assert(map.subrange(0, 4) =~= native_u32_bytes(HEADER_SIZE as int));
    assert(map.subrange(4, 8) =~= native_u32_bytes(FILE_FORMAT_VERSION as int));
    assert(entries_of(map) =~= Seq::<FoundView>::empty());
    assert(contents(map) =~= Map::<MetricKeyView, u64>::empty());
}

/// Opening a file of the current version loses nothing of what it says.
pub proof fn law_open_keeps_contents(map: Seq<u8>)
    requires
        map.len() >= HEADER_SIZE,
        raw_version(map) == FILE_FORMAT_VERSION,
        !used_overruns(map),
    ensures
        entries_of(opened_file(map)) == entries_of(map),
        contents(opened_file(map)) == contents(map),
        raw_version(opened_file(map)) == FILE_FORMAT_VERSION,
        complete(map) ==> complete(opened_file(map)),
{
    if raw_used(map) == 0 {
        let new_map = opened_file(map);
        law_native_u32(HEADER_SIZE as int, Seq::empty());
        assert(new_map.subrange(0, 4) =~= native_u32_bytes(HEADER_SIZE as int));
        assert(new_map.subrange(4, 8) =~= map.subrange(4, 8));
        lemma_scan_same(map, new_map, HEADER_SIZE as int, HEADER_SIZE as int);
        assert(entries_of(map) =~= Seq::<FoundView>::empty());
        assert(contents(new_map) =~= contents(map));
    }
}

/// Every value stands at a multiple of eight bytes, whatever the length of the names
/// before it; and in a complete file so do the bytes in use end.
pub proof fn law_values_aligned(map: Seq<u8>, i: int)
    requires
        map.len() >= HEADER_SIZE,
        !used_overruns(map),
    ensures
        0 <= i < entries_of(map).len() ==> entries_of(map)[i].value_at % 8 == 0,
        complete(map) ==> used_of(map) % 8 == 0,
{
    lemma_scan_aligned(map, HEADER_SIZE as int, used_of(map));
}

/// No key has two entries.
pub open spec fn keys_distinct(entries: Seq<FoundView>) -> bool {
    forall|i: int, j: int|
        0 <= i < entries.len() && 0 <= j < entries.len() && i != j ==> (
        #[trigger] entries[i]).key != (#[trigger] entries[j]).key
}

/// A file whose entries come from a writer has one entry for each key: a new value
/// for a key keeps its entries, and only a key that is not there gets a further one.
pub proof fn law_keys_stay_distinct(map: Seq<u8>, key: MetricKeyView, bits: u64)
    requires
        complete(map),
        keys_distinct(entries_of(map)),
    ensures
        positions_of(entries_of(map)).dom().contains(key) ==> keys_distinct(
            entries_of(
                overwrite(
                    map,
                    positions_of(entries_of(map))[key] as int,
                    native_u64_bytes(bits as int),
                ),
            ),
        ),
        !positions_of(entries_of(map)).dom().contains(key) && key_fits(key) && used_of(map)
            + entry_for(key, bits).len() <= map.len() && used_of(map) + entry_for(key, bits).len()
            <= u32::MAX ==> keys_distinct(entries_of(appended(map, key, bits))),
{
    let entries = entries_of(map);
    lemma_positions(entries, key);
    if positions_of(entries).dom().contains(key) {
        law_update(map, key, bits);
    } else if key_fits(key) && used_of(map) + entry_for(key, bits).len() <= map.len() && used_of(
        map,
    ) + entry_for(key, bits).len() <= u32::MAX {
        law_append(map, key, bits);
        let more = entries_of(appended(map, key, bits));
        assert forall|i: int, j: int|
            0 <= i < more.len() && 0 <= j < more.len() && i != j implies (#[trigger] more[i]).key
            != (#[trigger] more[j]).key by {
            if i < entries.len() {
                assert(more[i] == entries[i]);
            }
            if j < entries.len() {
                assert(more[j] == entries[j]);
            }
        }
    }
}

/// Every state of the file that a reader may come upon between the two is a complete
/// file of the same version, which says what the file said before or what it says after.
pub open spec fn readers_see_whole(map: MapView, new_map: MapView) -> bool {
    forall|i: int, seen: Seq<u8>|
        map.steps.len() <= i < new_map.steps.len() && #[trigger] visible(new_map.steps[i], seen)
            ==> {
            &&& complete(seen)
            &&& raw_version(seen) == raw_version(map.bytes)
            &&& contents(seen) == contents(map.bytes) || contents(seen) == contents(new_map.bytes)
        }
}

/// While a key is given a new value a reader finds the file with the value before or with
/// the value after.
pub proof fn law_update_seen_whole(map: MapView, key: MetricKeyView, bits: u64)
    requires
        complete(map.bytes),
        positions_of(entries_of(map.bytes)).dom().contains(key),
    ensures
        ({
            let at = positions_of(entries_of(map.bytes))[key] as int;
            let new_map = revalued(map, at, bits);
            readers_see_whole(map, new_map) && new_map.steps.len() == map.steps.len() + 1
        }),
{
    law_update(map.bytes, key, bits);
    law_native_u64(bits as int, Seq::empty());
    lemma_position_bounds(map.bytes, key);
    let at = positions_of(entries_of(map.bytes))[key] as int;
    let k = choose|i: int|
        0 <= i < entries_of(map.bytes).len() && (#[trigger] entries_of(map.bytes)[i]).key == key
            && entries_of(map.bytes)[i].value_at == at;
    law_values_aligned(map.bytes, k);
}

/// While a further entry is published a reader finds the file without it or with all of
/// it: the bytes in use move past it in one step, which is the last, behind a fence that
/// is behind every byte of the entry.
pub proof fn law_append_seen_whole(map: MapView, key: MetricKeyView, bits: u64)
    requires
        complete(map.bytes),
        key_fits(key),
        used_of(map.bytes) + entry_for(key, bits).len() <= map.bytes.len(),
    ensures
        prepared(map, key, bits).bytes == written(map.bytes, key, bits),
        published(map, key, bits).bytes == appended(map.bytes, key, bits),
        readers_see_whole(map, prepared(map, key, bits)),
        contents(written(map.bytes, key, bits)) == contents(map.bytes),
        used_of(map.bytes) + entry_for(key, bits).len() <= u32::MAX ==> {
            let steps = published(map, key, bits).steps;
            let header = steps[steps.len() - 1];
            &&& readers_see_whole(map, published(map, key, bits))
            &&& steps.len() == map.steps.len() + 3
            &&& steps[steps.len() - 2] is Fence
            &&& header->before == written(map.bytes, key, bits)
            &&& used_of(header->before) == used_of(map.bytes)
            &&& used_of(published(map, key, bits).bytes) == used_of(map.bytes) + entry_for(
                key,
                bits,
            ).len()
        },
{
    let used = used_of(map.bytes);
    let entry = entry_for(key, bits);
    law_entry_roundtrip(entry, Seq::empty());
    law_native_u32(used + entry.len(), Seq::empty());
    let middle = written(map.bytes, key, bits);
    let first = prepared(map, key, bits);
    law_publication(map.bytes, middle);
    assert(map.bytes.subrange(0, 4) =~= middle.subrange(0, 4));
    assert forall|i: int, seen: Seq<u8>|
        map.steps.len() <= i < first.steps.len() && #[trigger] visible(
            first.steps[i],
            seen,
        ) implies complete(seen) && raw_version(seen) == raw_version(map.bytes) && contents(seen)
        == contents(map.bytes) by {
        law_publication(map.bytes, seen);
    }
    if used + entry.len() <= u32::MAX {
        law_append(map.bytes, key, bits);
        let last = published(map, key, bits);
        assert(last.bytes.subrange(0, 4) =~= native_u32_bytes(used + entry.len()));
        assert forall|i: int, seen: Seq<u8>|
            map.steps.len() <= i < last.steps.len() && #[trigger] visible(
                last.steps[i],
                seen,
            ) implies complete(seen) && raw_version(seen) == raw_version(map.bytes) && (contents(
            seen,
        ) == contents(map.bytes) || contents(seen) == contents(last.bytes)) by {
            if i < first.steps.len() {
                assert(last.steps[i] == first.steps[i]);
                assert(visible(first.steps[i], seen));
            } else {
                assert(last.steps[i]->at == 0 && last.steps[i]->before == middle);
                assert(last.steps[i]->bytes.len() == 4 && last.steps[i]->word);
                assert(0int % 4 == 0);
                assert(seen == middle || seen == last.bytes);
            }
        }
    }
}

/// Moves the number of bytes in use.
fn write_used_header(map: &mut SharedMap, used: usize) -> (r: Result<(), MmapError>)
    requires
        old(map)@.bytes.len() >= HEADER_SIZE,
    ensures
        used > u32::MAX ==> r == Err::<(), MmapError>(MmapError::Overflow) && final(map)@ == old(
            map,
        )@,
        used <= u32::MAX ==> r == Ok::<(), MmapError>(()) && final(map)@ == old(map)@.put(
            0,
            native_u32_bytes(used as int),
            true,
        ),
{
    if used as u64 > u32::MAX as u64 {
        return Err(MmapError::Overflow);
    }
    map.put_u32(0, used as u32);
    Ok(())
}

/// Makes the file an empty one of the current version.
fn initialize_empty_file(map: &mut [u8])
    requires
        old(map)@.len() >= HEADER_SIZE,
    ensures
        final(map)@ == empty_file(old(map)@.len()),
{
    let ghost len = map@.len();
    let total: usize = map.len();
    fill_bytes(map, 0, total, 0);
    assert(map@ =~= Seq::new(len, |i: int| 0u8));
    write_u32(map, 0, HEADER_SIZE as u32);
    write_u32(map, 4, FILE_FORMAT_VERSION);
}

/// Brings the header of a newly mapped file in order.
fn prepare_header(map: &mut [u8])
    requires
        old(map)@.len() >= HEADER_SIZE,
    ensures
        final(map)@ == opened_file(old(map)@),
{
    if read_u32(map, 4) != FILE_FORMAT_VERSION {
        initialize_empty_file(map);
    } else if read_u32(map, 0) == 0 {
        write_u32(map, 0, HEADER_SIZE as u32);
    }
}

/// The value at an offset.
pub fn load_value(map: &[u8], offset: usize) -> (r: Result<u64, MmapError>)
    requires
        offset + 8 <= usize::MAX,
    ensures
        offset + 8 > map@.len() ==> r == Err::<u64, MmapError>(
            MmapError::OutOfBounds { offset: (offset + 8) as usize, len: map@.len() as usize },
        ),
        offset + 8 <= map@.len() ==> r == Ok::<u64, MmapError>(value_at(map@, offset as int)),
{
    if offset + 8 > map.len() {
        return Err(MmapError::OutOfBounds { offset: offset + 8, len: map.len() });
    }
    Ok(read_u64(map, offset))
}

/// Writes a value at an offset.
fn save_value(map: &mut SharedMap, offset: usize, bits: u64) -> (r: Result<(), MmapError>)
    requires
        offset + 8 <= usize::MAX,
    ensures
        offset + 8 > old(map)@.bytes.len() ==> final(map)@ == old(map)@ && r == Err::<
            (),
            MmapError,
        >(
            MmapError::OutOfBounds {
                offset: (offset + 8) as usize,
                len: old(map)@.bytes.len() as usize,
            },
        ),
        offset + 8 <= old(map)@.bytes.len() ==> r == Ok::<(), MmapError>(()) && final(map)@
            == revalued(old(map)@, offset as int, bits),
{
    let len: usize = map.as_slice().len();
    if offset + 8 > len {
        return Err(MmapError::OutOfBounds { offset: offset + 8, len });
    }
    map.put_u64(offset, bits);
    Ok(())
}

/// The writer of one metric file: where each key has its value.
#[derive(Debug)]
pub struct MmapMetricStore {
    positions: KeyTable<StoredMetricKey, usize>,
}

impl MmapMetricStore {
    /// Where each key has its value.
    pub closed spec fn positions(self) -> Map<MetricKeyView, usize> {
        row_map(self.positions@)
    }

    /// Every place leaves room for a value.
    pub closed spec fn wf(self) -> bool {
        &&& self.positions.wf()
        &&& forall|key: MetricKeyView| #[trigger]
            self.positions().dom().contains(key) ==> self.positions()[key] + 8 <= usize::MAX
    }

    /// The store knows the entries of this file, and these fill it.
    pub open spec fn indexes(self, map: Seq<u8>) -> bool {
        &&& complete(map)
        &&& self.positions() == positions_of(entries_of(map))
    }

    /// The store knows the new file, which says what the old one said, with this key
    /// given its new value if it got one; and at no moment does a reader find anything
    /// but the one or the other.
    pub open spec fn follows(
        self,
        map: MapView,
        new_map: MapView,
        key: MetricKeyView,
        r: Result<u64, MmapError>,
    ) -> bool {
        &&& self.indexes(new_map.bytes)
        &&& contents(new_map.bytes) == match r {
            Ok(bits) => contents(map.bytes).insert(key, bits),
            Err(_) => contents(map.bytes),
        }
        &&& raw_version(new_map.bytes) == raw_version(map.bytes)
        &&& readers_see_whole(map, new_map)
    }

    /// What reading a key answers.
    pub open spec fn got(
        self,
        map: Seq<u8>,
        key: MetricKeyView,
        r: Result<u64, MmapError>,
    ) -> bool {
        let used = used_of(map);
        let at = self.positions()[key];
        &&& r == if used_overruns(map) {
            Err::<u64, MmapError>(used_error(map))
        } else if !self.positions().dom().contains(key) {
            Ok::<u64, MmapError>(0)
        } else if at + 8 > used {
            Err::<u64, MmapError>(
                MmapError::OutOfBounds { offset: (at + 8) as usize, len: used as usize },
            )
        } else if at + 8 > map.len() {
            Err::<u64, MmapError>(
                MmapError::OutOfBounds { offset: (at + 8) as usize, len: map.len() as usize },
            )
        } else {
            Ok::<u64, MmapError>(value_at(map, at as int))
        }
        &&& self.indexes(map) ==> r == Ok::<u64, MmapError>(
            if contents(map).dom().contains(key) {
                contents(map)[key]
            } else {
                0
            },
        )
    }

    /// Brings the header of a mapped file in order and finds its entries.
    pub fn open(map: &mut [u8]) -> (r: Result<Self, MmapError>)
        requires
            old(map)@.len() >= HEADER_SIZE,
        ensures
            final(map)@ == opened_file(old(map)@),
            ({
                let walk = scan(final(map)@, HEADER_SIZE as int, used_of(final(map)@));
                match r {
                    Ok(store) => {
                        &&& !used_overruns(final(map)@)
                        &&& walk.stop is Done
                        &&& store.wf()
                        &&& store.positions() == positions_of(walk.entries)
                    },
                    Err(e) => if used_overruns(final(map)@) {
                        e == used_error(final(map)@)
                    } else {
                        walk.stop == ScanStop::Malformed(e) || walk.stop == ScanStop::NotText(e)
                    },
                }
            }),
            raw_version(old(map)@) != FILE_FORMAT_VERSION ==> {
                &&& r is Ok
                &&& r.unwrap().indexes(final(map)@)
                &&& contents(final(map)@) == Map::<MetricKeyView, u64>::empty()
            },
            raw_version(old(map)@) == FILE_FORMAT_VERSION && complete(old(map)@) ==> {
                &&& r is Ok
                &&& r.unwrap().indexes(final(map)@)
                &&& contents(final(map)@) == contents(old(map)@)
            },
    {
        proof {
            law_empty_file(map@.len());
            if raw_version(map@) == FILE_FORMAT_VERSION && complete(map@) {
                law_open_keeps_contents(map@);
            }
        }
        prepare_header(map);
        Self::rebuild_index(map)
    }

    /// Finds the entries of a file.
    fn rebuild_index(map: &[u8]) -> (r: Result<Self, MmapError>)
        requires
            map@.len() >= HEADER_SIZE,
        ensures
            ({
                let walk = scan(map@, HEADER_SIZE as int, used_of(map@));
                match r {
                    Ok(store) => {
                        &&& !used_overruns(map@)
                        &&& walk.stop is Done
                        &&& store.wf()
                        &&& store.positions() == positions_of(walk.entries)
                    },
                    Err(e) => if used_overruns(map@) {
                        e == used_error(map@)
                    } else {
                        walk.stop == ScanStop::Malformed(e) || walk.stop == ScanStop::NotText(e)
                    },
                }
            }),
    {
        let used: usize = match current_used(map) {
            Ok(used) => used,
            Err(e) => return Err(e),
        };
        let ghost walk = scan(map@, HEADER_SIZE as int, used_of(map@));
        let mut entries: Vec<CachedEntry> = Vec::new();
        let (_end, stop) = scan_entries(map, HEADER_SIZE, used, &mut entries);
        proof {
            assert(found(Seq::<CachedEntry>::empty()) =~= Seq::<FoundView>::empty());
            assert(found(entries@) =~= walk.entries);
            lemma_scan_bounds(map@, HEADER_SIZE as int, used_of(map@));
        }
        match stop {
            ScanStop::Done => {},
            ScanStop::Malformed(e) => return Err(e),
            ScanStop::NotText(e) => return Err(e),
        }
        let mut positions: KeyTable<StoredMetricKey, usize> = KeyTable::new();
        let mut i: usize = 0;
        proof {
            assert(positions_of(walk.entries.take(0)) =~= Map::<MetricKeyView, usize>::empty());
        }
        while i < entries.len()
            invariant
                i <= entries@.len(),
                found(entries@) == walk.entries,
                positions.wf(),
                row_map(positions@) == positions_of(walk.entries.take(i as int)),
            decreases entries@.len() - i,
        {
            positions.insert(entries[i].metric.clone(), entries[i].value_offset);
            proof {
                let next = walk.entries.take(i + 1);
                assert(next.drop_last() =~= walk.entries.take(i as int));
                assert(next.last() == found(entries@)[i as int]);
            }
            i = i + 1;
        }
        proof {
            assert(walk.entries.take(i as int) =~= walk.entries);
            assert forall|key: MetricKeyView| #[trigger]
                row_map(positions@).dom().contains(key) implies row_map(positions@)[key] + 8
                <= usize::MAX by {
                lemma_position_bounds(map@, key);
            }
        }
        Ok(MmapMetricStore { positions })
    }

    /// The number of bytes in use.
    pub fn used(map: &[u8]) -> (r: Result<usize, MmapError>)
        ensures
            used_overruns(map@) ==> r == Err::<usize, MmapError>(used_error(map@)),
            !used_overruns(map@) ==> r == Ok::<usize, MmapError>(used_of(map@) as usize),
    {
        current_used(map)
    }

    /// The value of a key; the bit pattern of zero for a key that is not there.
    pub fn get(&self, map: &[u8], family: &str, sample: &str, labels: &str) -> (r: Result<
        u64,
        MmapError,
    >)
        requires
            self.wf(),
        ensures
            self.got(
                map@,
                MetricKeyView { family: family@, sample: sample@, labels: labels@ },
                r,
            ),
    {
        let ghost key_view = MetricKeyView { family: family@, sample: sample@, labels: labels@ };
        proof {
            if self.indexes(map@) && self.positions().dom().contains(key_view) {
                lemma_position_bounds(map@, key_view);
            }
        }
        let used: usize = match current_used(map) {
            Ok(used) => used,
            Err(e) => return Err(e),
        };
        let key = StoredMetricKey::new(family, sample, labels);
        match self.positions.get(&key) {
            Some(offset) => {
                let offset: usize = *offset;
                assert(self.positions().dom().contains(key_view));
                if offset + 8 > used {
                    return Err(MmapError::OutOfBounds { offset: offset + 8, len: used });
                }
                load_value(map, offset)
            },
            None => Ok(0),
        }
    }

    /// The length that the file must have before a key can be given a value:
    /// nothing is asked for a key that is there.
    pub fn room_needed(&self, map: &[u8], family: &str, sample: &str, labels: &str) -> (r: Result<
        Option<usize>,
        MmapError,
    >)
        requires
            self.wf(),
        ensures
            ({
                let key = MetricKeyView { family: family@, sample: sample@, labels: labels@ };
                let needed = used_of(map@) + entry_for(key, 0).len();
                r == if self.positions().dom().contains(key) {
                    Ok::<Option<usize>, MmapError>(None)
                } else if used_overruns(map@) {
                    Err::<Option<usize>, MmapError>(used_error(map@))
                } else if !key_fits(key) {
                    Err::<Option<usize>, MmapError>(MmapError::KeyTooLong)
                } else if needed > usize::MAX {
                    Err::<Option<usize>, MmapError>(MmapError::Overflow)
                } else {
                    Ok::<Option<usize>, MmapError>(Some(needed as usize))
                }
            }),
    {
        let key = StoredMetricKey::new(family, sample, labels);
        match self.positions.get(&key) {
            Some(_) => return Ok(None),
            None => {},
        }
        let used: usize = match current_used(map) {
            Ok(used) => used,
            Err(e) => return Err(e),
        };
        let entry_len: usize = match RawEntry::calc_total_len(
            family.as_bytes().len(),
            sample.as_bytes().len(),
            labels.as_bytes().len(),
        ) {
            Ok(entry_len) => entry_len,
            Err(e) => return Err(e),
        };
        match checked_add(used, entry_len) {
            Ok(needed) => Ok(Some(needed)),
            Err(e) => Err(e),
        }
    }

    /// Gives a key the value that `f` makes of the one it has, or of zero for a
    /// key that is not there. A new key goes behind the bytes in use, which are
    /// moved past it last of all, behind a fence.
    pub fn upsert<F: FnOnce(u64) -> u64>(
        &mut self,
        map: &mut SharedMap,
        family: &str,
        sample: &str,
        labels: &str,
        f: F,
    ) -> (r: Result<u64, MmapError>)
        requires
            old(self).wf(),
            old(map)@.bytes.len() >= HEADER_SIZE,
            forall|bits: u64| #[trigger] f.requires((bits,)),
        ensures
            final(self).wf(),
            ({
                let key = MetricKeyView { family: family@, sample: sample@, labels: labels@ };
                &&& upserted(
                    old(self).positions(),
                    old(map)@,
                    key,
                    |before: u64, after: u64| f.ensures((before,), after),
                    final(self).positions(),
                    final(map)@,
                    r,
                )
                &&& old(self).indexes(old(map)@.bytes) ==> final(self).follows(
                    old(map)@,
                    final(map)@,
                    key,
                    r,
                )
            }),
    {
        let ghost key_view = MetricKeyView { family: family@, sample: sample@, labels: labels@ };
        let ghost outcome = |before: u64, after: u64| f.ensures((before,), after);
        let ghost positions = self.positions();
        let ghost before = map@;
        let key = StoredMetricKey::new(family, sample, labels);
        match self.positions.get(&key) {
            Some(offset) => {
                let offset: usize = *offset;
                let current: u64 = match load_value(map.as_slice(), offset) {
                    Ok(current) => current,
                    Err(e) => return Err(e),
                };
                let value: u64 = f(current);
                match save_value(map, offset, value) {
                    Ok(()) => {},
                    Err(e) => return Err(e),
                }
                proof {
                    assert(outcome(current, value));
                    if complete(before.bytes) && positions == positions_of(
                        entries_of(before.bytes),
                    ) {
                        law_update(before.bytes, key_view, value);
                        law_update_seen_whole(before, key_view, value);
                    }
                }
                return Ok(value);
            },
            None => {},
        }
        let used: usize = match current_used(map.as_slice()) {
            Ok(used) => used,
            Err(e) => return Err(e),
        };
        let entry_len: usize = match RawEntry::calc_total_len(
            family.as_bytes().len(),
            sample.as_bytes().len(),
            labels.as_bytes().len(),
        ) {
            Ok(entry_len) => entry_len,
            Err(e) => return Err(e),
        };
        let new_used: usize = match checked_add(used, entry_len) {
            Ok(new_used) => new_used,
            Err(e) => return Err(e),
        };
        let len: usize = map.as_slice().len();
        if new_used > len {
            return Err(MmapError::EntryTooLarge { needed: entry_len, available: len - used });
        }
        let value: u64 = f(0);
        assert(outcome(0, value));
        let value_offset: usize = match map.put_entry(
            used,
            new_used,
            family.as_bytes(),
            sample.as_bytes(),
            labels.as_bytes(),
            value,
        ) {
            Ok(value_offset) => value_offset,
            Err(e) => return Err(e),
        };
        let absolute_value_offset: usize = used + value_offset;
        map.fence();
        proof {
            if complete(before.bytes) && positions == positions_of(entries_of(before.bytes)) {
                law_publication(before.bytes, map@.bytes);
                law_append_seen_whole(before, key_view, value);
                if new_used <= u32::MAX {
                    law_append(before.bytes, key_view, value);
                }
            }
        }
        match write_used_header(map, new_used) {
            Ok(()) => {},
            Err(e) => return Err(e),
        }
        self.positions.insert(key, absolute_value_offset);
        Ok(value)
    }

    /// Adds to the value of a key. `sum` is the sum of two doubles, on their bit
    /// patterns.
    pub fn increment<S: FnOnce(u64, u64) -> u64>(
        &mut self,
        map: &mut SharedMap,
        family: &str,
        sample: &str,
        labels: &str,
        by: u64,
        sum: S,
    ) -> (r: Result<u64, MmapError>)
        requires
            old(self).wf(),
            old(map)@.bytes.len() >= HEADER_SIZE,
            forall|bits: u64| #[trigger] sum.requires((bits, by)),
        ensures
            final(self).wf(),
            ({
                let key = MetricKeyView { family: family@, sample: sample@, labels: labels@ };
                &&& upserted(
                    old(self).positions(),
                    old(map)@,
                    key,
                    |before: u64, after: u64| sum.ensures((before, by), after),
                    final(self).positions(),
                    final(map)@,
                    r,
                )
                &&& old(self).indexes(old(map)@.bytes) ==> final(self).follows(
                    old(map)@,
                    final(map)@,
                    key,
                    r,
                )
            }),
    {
        let f = |bits: u64| -> (after: u64)
            requires
                sum.requires((bits, by)),
            ensures
                sum.ensures((bits, by), after),
            { sum(bits, by) };
        let ghost positions = self.positions();
        let ghost before_map = map@;
        let ghost strong = |before: u64, after: u64| f.ensures((before,), after);
        let r = self.upsert(map, family, sample, labels, f);
        proof {
            lemma_upserted_weaker(
                positions,
                before_map,
                MetricKeyView { family: family@, sample: sample@, labels: labels@ },
                strong,
                |before: u64, after: u64| sum.ensures((before, by), after),
                self.positions(),
                map@,
                r,
            );
        }
        r
    }

    /// Sets the value of a key.
    pub fn set(
        &mut self,
        map: &mut SharedMap,
        family: &str,
        sample: &str,
        labels: &str,
        value: u64,
    ) -> (r: Result<u64, MmapError>)
        requires
            old(self).wf(),
            old(map)@.bytes.len() >= HEADER_SIZE,
        ensures
            final(self).wf(),
            ({
                let key = MetricKeyView { family: family@, sample: sample@, labels: labels@ };
                &&& upserted(
                    old(self).positions(),
                    old(map)@,
                    key,
                    |before: u64, after: u64| after == value,
                    final(self).positions(),
                    final(map)@,
                    r,
                )
                &&& old(self).indexes(old(map)@.bytes) ==> final(self).follows(
                    old(map)@,
                    final(map)@,
                    key,
                    r,
                )
            }),
    {
        let f = |_bits: u64| -> (after: u64)
            ensures
                after == value,
            { value };
        let ghost positions = self.positions();
        let ghost before_map = map@;
        let ghost strong = |before: u64, after: u64| f.ensures((before,), after);
        let r = self.upsert(map, family, sample, labels, f);
        proof {
            lemma_upserted_weaker(
                positions,
                before_map,
                MetricKeyView { family: family@, sample: sample@, labels: labels@ },
                strong,
                |before: u64, after: u64| after == value,
                self.positions(),
                map@,
                r,
            );
        }
        r
    }

    /// The value of a key whose labels are given one by one.
    pub fn get_with_labels(
        &self,
        map: &[u8],
        family: &str,
        sample: &str,
        labels: &[(&str, &str)],
    ) -> (r: Result<u64, MmapError>)
        requires
            self.wf(),
        ensures
            self.got(map@, labelled_key(family@, sample@, labels@), r),
    {
        let labels = encode_labels(labels);
        self.get(map, family, sample, labels.as_str())
    }

    /// Adds to the value of a key whose labels are given one by one.
    pub fn increment_with_labels<S: FnOnce(u64, u64) -> u64>(
        &mut self,
        map: &mut SharedMap,
        family: &str,
        sample: &str,
        labels: &[(&str, &str)],
        by: u64,
        sum: S,
    ) -> (r: Result<u64, MmapError>)
        requires
            old(self).wf(),
            old(map)@.bytes.len() >= HEADER_SIZE,
            forall|bits: u64| #[trigger] sum.requires((bits, by)),
        ensures
            final(self).wf(),
            ({
                let key = labelled_key(family@, sample@, labels@);
                &&& upserted(
                    old(self).positions(),
                    old(map)@,
                    key,
                    |before: u64, after: u64| sum.ensures((before, by), after),
                    final(self).positions(),
                    final(map)@,
                    r,
                )
                &&& old(self).indexes(old(map)@.bytes) ==> final(self).follows(
                    old(map)@,
                    final(map)@,
                    key,
                    r,
                )
            }),
    {
        let labels = encode_labels(labels);
        self.increment(map, family, sample, labels.as_str(), by, sum)
    }

    /// Sets the value of a key whose labels are given one by one.
    pub fn set_with_labels(
        &mut self,
        map: &mut SharedMap,
        family: &str,
        sample: &str,
        labels: &[(&str, &str)],
        value: u64,
    ) -> (r: Result<u64, MmapError>)
        requires
            old(self).wf(),
            old(map)@.bytes.len() >= HEADER_SIZE,
        ensures
            final(self).wf(),
            ({
                let key = labelled_key(family@, sample@, labels@);
                &&& upserted(
                    old(self).positions(),
                    old(map)@,
                    key,
                    |before: u64, after: u64| after == value,
                    final(self).positions(),
                    final(map)@,
                    r,
                )
                &&& old(self).indexes(old(map)@.bytes) ==> final(self).follows(
                    old(map)@,
                    final(map)@,
                    key,
                    r,
                )
            }),
    {
        let labels = encode_labels(labels);
        self.set(map, family, sample, labels.as_str(), value)
    }
}

/// The header takes eight bytes and says version two.
pub proof fn law_format_constants()
    ensures
        HEADER_SIZE == 8,
        FILE_FORMAT_VERSION == 2,
{
}

/// A write to a file that the store knows succeeds for every key whose three names take at
/// most 4294967295 bytes each, if the file has room for the entry and 4294967295 bytes
/// reach to its end; for a key that is there it always succeeds. The file then has the
/// value that was answered, which was made of the value before or of zero, and says of
/// every other key what it said.
pub proof fn law_write_is_stored(
    positions: Map<MetricKeyView, usize>,
    map: MapView,
    key: MetricKeyView,
    outcome: spec_fn(u64, u64) -> bool,
    new_positions: Map<MetricKeyView, usize>,
    new_map: MapView,
    r: Result<u64, MmapError>,
)
    requires
        complete(map.bytes),
        positions == positions_of(entries_of(map.bytes)),
        upserted(positions, map, key, outcome, new_positions, new_map, r),
        contents(map.bytes).dom().contains(key) || ({
            let f = encode_utf8(key.family).len() as int;
            let s = encode_utf8(key.sample).len() as int;
            let l = encode_utf8(key.labels).len() as int;
            let end = used_of(map.bytes) + (12 + f + s + l + 7) / 8 * 8 + 8;
            &&& f <= 4294967295 && s <= 4294967295 && l <= 4294967295
            &&& end <= map.bytes.len() && end <= 4294967295
        }),
    ensures
        r is Ok,
        outcome(
            if contents(map.bytes).dom().contains(key) {
                contents(map.bytes)[key]
            } else {
                0
            },
            r.unwrap(),
        ),
        contents(new_map.bytes) == contents(map.bytes).insert(key, r.unwrap()),
        complete(new_map.bytes),
        new_positions == positions_of(entries_of(new_map.bytes)),
        raw_version(new_map.bytes) == raw_version(map.bytes),
        new_map.bytes.len() == map.bytes.len(),
{
    lemma_entry_end(key);
    if contents(map.bytes).dom().contains(key) {
        lemma_position_bounds(map.bytes, key);
        lemma_upserted_known(positions, map, key, outcome, new_positions, new_map, r);
        law_update(map.bytes, key, r.unwrap());
    } else {
        lemma_upserted_new(positions, map, key, outcome, new_positions, new_map, r);
        law_append(map.bytes, key, r.unwrap());
    }
}

/// Where the entry of a key ends, from its start on.
proof fn lemma_entry_end(key: MetricKeyView)
    ensures
        ({
            let f = encode_utf8(key.family).len() as int;
            let s = encode_utf8(key.sample).len() as int;
            let l = encode_utf8(key.labels).len() as int;
            &&& forall|bits: u64| #[trigger]
                entry_for(key, bits).len() == (12 + f + s + l + 7) / 8 * 8 + 8
            &&& forall|bits: u64| #[trigger]
                entry_for(key, bits).value_offset() == (12 + f + s + l + 7) / 8 * 8
            &&& key_fits(key) <==> f <= 4294967295 && s <= 4294967295 && l <= 4294967295
        }),
{
}

/// A write to a key at its place.
proof fn lemma_upserted_known(
    positions: Map<MetricKeyView, usize>,
    map: MapView,
    key: MetricKeyView,
    outcome: spec_fn(u64, u64) -> bool,
    new_positions: Map<MetricKeyView, usize>,
    new_map: MapView,
    r: Result<u64, MmapError>,
)
    requires
        upserted(positions, map, key, outcome, new_positions, new_map, r),
        positions.dom().contains(key),
        positions[key] + 8 <= map.bytes.len(),
    ensures
        r is Ok,
        outcome(value_at(map.bytes, positions[key] as int), r.unwrap()),
        new_map.bytes == overwrite(
            map.bytes,
            positions[key] as int,
            native_u64_bytes(r.unwrap() as int),
        ),
        new_positions == positions,
{
}

/// A write to a key that has no place, where there is room for its entry.
proof fn lemma_upserted_new(
    positions: Map<MetricKeyView, usize>,
    map: MapView,
    key: MetricKeyView,
    outcome: spec_fn(u64, u64) -> bool,
    new_positions: Map<MetricKeyView, usize>,
    new_map: MapView,
    r: Result<u64, MmapError>,
)
    requires
        upserted(positions, map, key, outcome, new_positions, new_map, r),
        !positions.dom().contains(key),
        !used_overruns(map.bytes),
        key_fits(key),
        used_of(map.bytes) + entry_for(key, 0).len() <= map.bytes.len(),
        used_of(map.bytes) + entry_for(key, 0).len() <= u32::MAX,
    ensures
        r is Ok,
        outcome(0, r.unwrap()),
        new_map.bytes == appended(map.bytes, key, r.unwrap()),
        new_positions == positions.insert(
            key,
            (used_of(map.bytes) + entry_for(key, 0).value_offset()) as usize,
        ),
{
}

/// A write that is refused leaves what the file says as it was: a key that is not there
/// and has a name of more than 4294967295 bytes is refused for that, and one whose entry
/// does not fit behind the bytes in use for want of room.
pub proof fn law_refused_write(
    positions: Map<MetricKeyView, usize>,
    map: MapView,
    key: MetricKeyView,
    outcome: spec_fn(u64, u64) -> bool,
    new_positions: Map<MetricKeyView, usize>,
    new_map: MapView,
    r: Result<u64, MmapError>,
)
    requires
        complete(map.bytes),
        positions == positions_of(entries_of(map.bytes)),
        upserted(positions, map, key, outcome, new_positions, new_map, r),
    ensures
        ({
            let f = encode_utf8(key.family).len() as int;
            let s = encode_utf8(key.sample).len() as int;
            let l = encode_utf8(key.labels).len() as int;
            let used = used_of(map.bytes);
            let len = (12 + f + s + l + 7) / 8 * 8 + 8;
            let known = contents(map.bytes).dom().contains(key);
            &&& r is Err ==> contents(new_map.bytes) == contents(map.bytes) && new_positions
                == positions
            &&& !known && (f > 4294967295 || s > 4294967295 || l > 4294967295) ==> r == Err::<
                u64,
                MmapError,
            >(MmapError::KeyTooLong)
            &&& !known && f <= 4294967295 && s <= 4294967295 && l <= 4294967295 && used + len
                > map.bytes.len() && used + len <= usize::MAX ==> r == Err::<u64, MmapError>(
                MmapError::EntryTooLarge {
                    needed: len as usize,
                    available: (map.bytes.len() - used) as usize,
                },
            )
        }),
{
    let known = contents(map.bytes).dom().contains(key);
    lemma_entry_end(key);
    if known {
        lemma_position_bounds(map.bytes, key);
    } else if r is Err && new_map != map {
        let bits = choose|bits: u64| #[trigger]
            outcome(0, bits) && new_map == prepared(map, key, bits);
        law_append_seen_whole(map, key, bits);
    }
}

/// What a store answers for a key of a file it knows: the value that the file has for it,
/// or zero.
pub proof fn law_read_gives_contents(
    store: MmapMetricStore,
    map: Seq<u8>,
    key: MetricKeyView,
    r: Result<u64, MmapError>,
)
    requires
        store.indexes(map),
        store.got(map, key, r),
    ensures
        r is Ok,
        contents(map).dom().contains(key) ==> r.unwrap() == contents(map)[key],
        !contents(map).dom().contains(key) ==> r.unwrap() == 0,
{
}

/// What a file says of a key is the value in the last eight bytes of the last of its
/// entries that have that key; it says nothing of a key that no entry has.
pub proof fn law_contents(map: Seq<u8>, key: MetricKeyView, k: int)
    requires
        map.len() >= 8,
        !used_overruns(map),
    ensures
        contents(map).dom().contains(key) <==> exists|i: int|
            0 <= i < entries_of(map).len() && (#[trigger] entries_of(map)[i]).key == key,
        0 <= k < entries_of(map).len() && entries_of(map)[k].key == key && (forall|i: int|
            k < i < entries_of(map).len() ==> (#[trigger] entries_of(map)[i]).key != key)
            ==> contents(map)[key] == native_u64(
            map.subrange(entries_of(map)[k].value_at, entries_of(map)[k].value_at + 8),
        ),
{
    let entries = entries_of(map);
    lemma_positions(entries, key);
    lemma_scan_bounds(map, HEADER_SIZE as int, used_of(map));
    law_native_u32(0, map.subrange(0, 4));
    if 0 <= k < entries.len() && entries[k].key == key && (forall|i: int|
        k < i < entries.len() ==> (#[trigger] entries[i]).key != key) {
        lemma_last_position(entries, key, k);
        let at = entries[k].value_at;
        law_native_u64(0, map.subrange(at, at + 8));
    }
}

proof fn lemma_last_position(entries: Seq<FoundView>, key: MetricKeyView, k: int)
    requires
        0 <= k < entries.len(),
        entries[k].key == key,
        forall|i: int| k < i < entries.len() ==> (#[trigger] entries[i]).key != key,
    ensures
        positions_of(entries).dom().contains(key),
        positions_of(entries)[key] == entries[k].value_at as usize,
    decreases entries.len(),
{
    let init = entries.drop_last();
    if k < entries.len() - 1 {
        assert(entries[entries.len() - 1].key != key);
        assert forall|i: int| k < i < init.len() implies (#[trigger] init[i]).key != key by {
            assert(init[i] == entries[i]);
        }
        lemma_last_position(init, key, k);
    }
}

/// A file that opens: of another version it becomes an empty file of zeros behind the
/// header; of version two it stays as it is, but for a header that says zero bytes are in
/// use, which then says eight.
pub proof fn law_opened_file(map: Seq<u8>)
    requires
        map.len() >= 8,
    ensures
        ({
            let after = opened_file(map);
            let version = native_u32(map.subrange(4, 8));
            &&& after.len() == map.len()
            &&& native_u32(after.subrange(4, 8)) == 2
            &&& version != 2 ==> native_u32(after.subrange(0, 4)) == 8 && forall|i: int|
                8 <= i < after.len() ==> after[i] == 0
            &&& version == 2 ==> forall|i: int| 4 <= i < map.len() ==> after[i] == map[i]
            &&& version == 2 && native_u32(map.subrange(0, 4)) != 0 ==> after == map
            &&& version == 2 && native_u32(map.subrange(0, 4)) == 0 ==> native_u32(
                after.subrange(0, 4),
            ) == 8
        }),
{
    let after = opened_file(map);
    law_native_u32(8, Seq::empty());
    law_native_u32(2, Seq::empty());
    if native_u32(map.subrange(4, 8)) != 2 {
        assert(after.subrange(0, 4) =~= native_u32_bytes(8));
        assert(after.subrange(4, 8) =~= native_u32_bytes(2));
    } else {
        assert(after.subrange(4, 8) =~= map.subrange(4, 8));
        if native_u32(map.subrange(0, 4)) == 0 {
            assert(after.subrange(0, 4) =~= native_u32_bytes(8));
        }
    }
}

/// A file grows by being doubled as often as it takes and no more often: its new length is
/// the old one times a power of two, and half of that would not have been enough.
pub proof fn law_doubled(len: int, needed: int) -> (times: nat)
    requires
        len > 0,
    ensures
        doubled(len, needed) == len * pow2(times),
        doubled(len, needed) >= needed,
        times > 0 ==> doubled(len, needed) < 2 * needed && len < needed,
        len >= needed ==> times == 0,
    decreases
        (if len < needed {
            needed - len
        } else {
            0
        }),
{
    lemma_doubled(len, needed);
    lemma2_to64();
    if len >= needed {
        0
    } else {
        let times = law_doubled(2 * len, needed);
        lemma_pow2_unfold(times + 1);
        assert(len * pow2(times + 1) == 2 * len * pow2(times)) by (nonlinear_arith)
            requires
                pow2(times + 1) == 2 * pow2(times),
        ;
        times + 1
    }
}

/// Whole pages: the least multiple of the page size that is not less.
pub proof fn law_page_aligned(min: int, page_size: int)
    requires
        page_size > 0,
        min >= 0,
    ensures
        page_aligned(min, page_size) % page_size == 0,
        min <= page_aligned(min, page_size) < min + page_size,
{
    lemma_page_aligned(min, page_size);
}

/// A write, wherever the store thinks the value of a key is. At a place inside the file the
/// eight bytes there are replaced and nothing else is touched. At one that is not, and for
/// a new key behind a header that claims more than there is or whose entry ends at more
/// than any file can hold, the write is refused; then no byte in use and not the header
/// changes.
pub proof fn law_write_by_position(
    positions: Map<MetricKeyView, usize>,
    map: MapView,
    key: MetricKeyView,
    outcome: spec_fn(u64, u64) -> bool,
    new_positions: Map<MetricKeyView, usize>,
    new_map: MapView,
    r: Result<u64, MmapError>,
    i: int,
)
    requires
        map.bytes.len() >= 8,
        upserted(positions, map, key, outcome, new_positions, new_map, r),
    ensures
        ({
            let room = map.bytes.len();
            let known = positions.dom().contains(key);
            let at = positions[key] as int;
            let word = native_u32(map.bytes.subrange(0, 4));
            let used = if word == 0 { 8 } else { word };
            let f = encode_utf8(key.family).len() as int;
            let s = encode_utf8(key.sample).len() as int;
            let l = encode_utf8(key.labels).len() as int;
            let fits = f <= 4294967295 && s <= 4294967295 && l <= 4294967295;
            let end = used + (12 + f + s + l + 7) / 8 * 8 + 8;
            &&& new_map.bytes.len() == room
            &&& known && at + 8 <= room ==> r is Ok && native_u64(
                new_map.bytes.subrange(at, at + 8),
            ) == r.unwrap() && outcome(
                native_u64(map.bytes.subrange(at, at + 8)) as u64,
                r.unwrap(),
            )
            &&& known && 0 <= i < room && !(at <= i < at + 8) ==> new_map.bytes[i] == map.bytes[i]
            &&& known ==> new_positions == positions
            &&& known && at + 8 > room ==> r == Err::<u64, MmapError>(
                MmapError::OutOfBounds { offset: (at + 8) as usize, len: room as usize },
            )
            &&& !known && used > room ==> r == Err::<u64, MmapError>(
                MmapError::InvalidUsed { used: used as usize, len: room as usize },
            )
            &&& !known && used <= room && !fits ==> r == Err::<u64, MmapError>(
                MmapError::KeyTooLong,
            )
            &&& !known && used <= room && fits && end > usize::MAX ==> r == Err::<u64, MmapError>(
                MmapError::Overflow,
            )
            &&& !known && used <= room && fits && end <= room && end > 4294967295 ==> r == Err::<
                u64,
                MmapError,
            >(MmapError::Overflow)
            &&& !known && used <= room && fits && end <= room && end <= 4294967295 ==> r is Ok
                && outcome(0, r.unwrap()) && new_positions == positions.insert(
                key,
                (end - 8) as usize,
            )
            &&& !known && r is Err && 0 <= i < used && i < room ==> new_map.bytes[i]
                == map.bytes[i]
            &&& !known && r is Err ==> new_positions == positions
        }),
{
    let room = map.bytes.len();
    law_native_u32(0, map.bytes.subrange(0, 4));
    lemma_entry_end(key);
    if positions.dom().contains(key) {
        let at = positions[key] as int;
        if at + 8 <= room {
            let bits = r.unwrap();
            law_native_u64(bits as int, map.bytes.subrange(at, at + 8));
            assert(new_map.bytes.subrange(at, at + 8) =~= native_u64_bytes(bits as int));
        }
    } else if r is Err && new_map != map {
        let bits = choose|bits: u64| #[trigger]
            outcome(0, bits) && new_map == prepared(map, key, bits);
        assert(new_map == prepared(map, key, bits));
    }
}

/// What a store answers, wherever it thinks the value of a key is: zero for a key it does
/// not know, and a refusal if the header claims more than there is or the place is not
/// among the bytes in use.
pub proof fn law_read_by_position(
    store: MmapMetricStore,
    map: Seq<u8>,
    key: MetricKeyView,
    r: Result<u64, MmapError>,
)
    requires
        map.len() >= 8,
        store.got(map, key, r),
    ensures
        ({
            let known = store.positions().dom().contains(key);
            let at = store.positions()[key] as int;
            let word = native_u32(map.subrange(0, 4));
            let used = if word == 0 { 8 } else { word };
            &&& used > map.len() ==> r == Err::<u64, MmapError>(
                MmapError::InvalidUsed { used: used as usize, len: map.len() as usize },
            )
            &&& used <= map.len() && !known ==> r == Ok::<u64, MmapError>(0)
            &&& used <= map.len() && known && at + 8 > used ==> r == Err::<u64, MmapError>(
                MmapError::OutOfBounds { offset: (at + 8) as usize, len: used as usize },
            )
            &&& used <= map.len() && known && at + 8 <= used ==> r is Ok && r.unwrap()
                == native_u64(map.subrange(at, at + 8))
        }),
{
    law_native_u32(0, map.subrange(0, 4));
    let at = store.positions()[key] as int;
    if at + 8 <= map.len() {
        law_native_u64(0, map.subrange(at, at + 8));
    }
}

/// A file that is long enough stays as it is. One that is not grows to whole pages that
/// hold what is needed: to the end of the page in which its length, doubled as often as it
/// takes, ends; a length below that of the header counts as that. Only a length that no
/// number holds is refused.
pub proof fn law_capacity(
    len: usize,
    needed: usize,
    page_size: usize,
    r: Result<Option<usize>, MmapError>,
) -> (times: nat)
    requires
        page_size > 0,
        call_ensures(ensure_capacity, (len, needed, page_size), r),
    ensures
        len >= needed <==> r == Ok::<Option<usize>, MmapError>(None),
        r matches Ok(Some(size)) ==> {
            let least = (if len < 8 { 8int } else { len as int }) * pow2(times);
            &&& size >= needed
            &&& size % page_size == 0
            &&& least <= size < least + page_size
            &&& needed <= least
            &&& times > 0 ==> least < 2 * needed
        },
        r is Err ==> r == Err::<Option<usize>, MmapError>(MmapError::Overflow) && (if len < 8 {
            8int
        } else {
            len as int
        }) * pow2(times) + page_size > usize::MAX,
{
    let start = if len < 8 { 8int } else { len as int };
    let times = law_doubled(start, needed as int);
    law_page_aligned(doubled(start, needed as int), page_size as int);
    times
}

/// A file without a whole header is given whole pages that hold one; any other keeps its
/// length.
pub proof fn law_initial_size(
    file_len: usize,
    page_size: usize,
    r: Result<Option<usize>, MmapError>,
)
    requires
        page_size > 0,
        call_ensures(initial_size, (file_len, page_size), r),
    ensures
        file_len >= 8 <==> r == Ok::<Option<usize>, MmapError>(None),
        r matches Ok(Some(size)) ==> 8 <= size < 8 + page_size && size % page_size == 0,
        r is Err ==> r == Err::<Option<usize>, MmapError>(MmapError::Overflow) && 8 + page_size
            > usize::MAX,
{
    law_page_aligned(8, page_size as int);
}

/// The room that a write needs: none for a key that has a place, and for any other up to
/// the end of its entry behind the bytes in use.
pub proof fn law_room_needed(
    store: MmapMetricStore,
    map: &[u8],
    family: &str,
    sample: &str,
    labels: &str,
    r: Result<Option<usize>, MmapError>,
)
    requires
        store.wf(),
        map@.len() >= 8,
        call_ensures(MmapMetricStore::room_needed, (&store, map, family, sample, labels), r),
    ensures
        ({
            let key = MetricKeyView { family: family@, sample: sample@, labels: labels@ };
            let word = native_u32(map@.subrange(0, 4));
            let used = if word == 0 { 8 } else { word };
            let f = encode_utf8(family@).len() as int;
            let s = encode_utf8(sample@).len() as int;
            let l = encode_utf8(labels@).len() as int;
            let fits = f <= 4294967295 && s <= 4294967295 && l <= 4294967295;
            let end = used + (12 + f + s + l + 7) / 8 * 8 + 8;
            let known = store.positions().dom().contains(key);
            &&& known ==> r == Ok::<Option<usize>, MmapError>(None)
            &&& !known && used <= map@.len() && fits && end <= usize::MAX ==> r == Ok::<
                Option<usize>,
                MmapError,
            >(Some(end as usize))
            &&& !known && used > map@.len() ==> r == Err::<Option<usize>, MmapError>(
                MmapError::InvalidUsed { used: used as usize, len: map@.len() as usize },
            )
            &&& !known && used <= map@.len() && !fits ==> r == Err::<Option<usize>, MmapError>(
                MmapError::KeyTooLong,
            )
            &&& !known && used <= map@.len() && fits && end > usize::MAX ==> r == Err::<
                Option<usize>,
                MmapError,
            >(MmapError::Overflow)
        }),
{
    law_native_u32(0, map@.subrange(0, 4));
    lemma_entry_end(MetricKeyView { family: family@, sample: sample@, labels: labels@ });
}

} // verus!
