//! Bringing the entries of several files together, key by key.
//!
//! Doubles are not computed with here. A merged value is kept as the values that
//! go into it, in their order, each with the operation that joins it to what came
//! before.

use crate::aggregate::{MetricType, MultiprocessMode};
use crate::file_name::{FileParams, FileParamsView};
use crate::key_table::{lemma_row_map, lemma_update_row, row_map, KeyTable, TableKey};
use crate::metric_key::{metric_before, MetricKeyView, StoredMetricKey};
use crate::mmap_file::{
    complete, contents, entries_of, keys_distinct, lemma_position_bounds, lemma_positions,
    positions_of, value_at,
};
use crate::native::read_u64;
use crate::scan::{found, used_of, CachedEntry, FoundView};
use crate::text::{compare_text, lemma_text_order, text_before, KeyOrder};
use vstd::prelude::*;

verus! {

/// How a value joins those before it.
#[derive(Debug, Clone, Copy, PartialEq, Eq, Structural)]
pub enum MergeOp {
    Min,
    Max,
    Sum,
}

/// A value, and how it joins those before it.
#[derive(Debug, Clone, Copy, PartialEq, Eq, Structural)]
pub struct MergeStep {
    pub op: MergeOp,
    pub bits: u64,
}

/// The values that go into a merged value.
#[verifier::ext_equal]
pub struct ValueView {
    pub first: u64,
    pub steps: Seq<MergeStep>,
}

/// A merged value: the first of its values and those that join it.
#[derive(Debug)]
pub struct MergedValue {
    pub first: u64,
    pub steps: Vec<MergeStep>,
}

impl View for MergedValue {
    type V = ValueView;

    open spec fn view(&self) -> ValueView {
        ValueView { first: self.first, steps: self.steps@ }
    }
}

/// The number that a merged value comes to, for a given arithmetic.
pub open spec fn total(
    first: u64,
    steps: Seq<MergeStep>,
    join: spec_fn(MergeOp, u64, u64) -> u64,
) -> u64
    decreases steps.len(),
{
    if steps.len() == 0 {
        first
    } else {
        join(steps.last().op, total(first, steps.drop_last(), join), steps.last().bits)
    }
}

/// A value on its way into a merge, with what the file it comes from is.
#[derive(Debug, Clone, Copy, PartialEq, Eq, Structural)]
pub struct Incoming {
    pub mode: MultiprocessMode,
    pub metric_type: MetricType,
    pub bits: u64,
}

/// How a value of such a file joins those before it, if it does not take their
/// place.
pub open spec fn merge_op(metric_type: MetricType, mode: MultiprocessMode) -> Option<MergeOp> {
    if metric_type != MetricType::Gauge {
        Some(MergeOp::Sum)
    } else {
        match mode {
            MultiprocessMode::Min => Some(MergeOp::Min),
            MultiprocessMode::Max => Some(MergeOp::Max),
            MultiprocessMode::Livesum => Some(MergeOp::Sum),
            MultiprocessMode::All => None,
            MultiprocessMode::Liveall => None,
        }
    }
}

/// The processes of such a file keep their values apart.
pub open spec fn pid_counts(metric_type: MetricType, mode: MultiprocessMode) -> bool {
    metric_type == MetricType::Gauge && (mode == MultiprocessMode::All || mode
        == MultiprocessMode::Liveall)
}

/// What is known of a merged key.
#[verifier::ext_equal]
pub struct MetaView {
    pub mode: MultiprocessMode,
    pub metric_type: MetricType,
    pub value: ValueView,
}

#[derive(Debug)]
pub struct EntryMeta {
    pub mode: MultiprocessMode,
    pub metric_type: MetricType,
    pub value: MergedValue,
}

impl View for EntryMeta {
    type V = MetaView;

    open spec fn view(&self) -> MetaView {
        MetaView { mode: self.mode, metric_type: self.metric_type, value: self.value@ }
    }
}

/// What is known of a key after its first value.
pub open spec fn first_meta(incoming: Incoming) -> MetaView {
    MetaView {
        mode: incoming.mode,
        metric_type: incoming.metric_type,
        value: ValueView { first: incoming.bits, steps: Seq::empty() },
    }
}

/// What is known of a key after one more value.
pub open spec fn merged_meta(current: MetaView, incoming: Incoming) -> MetaView {
    MetaView {
        mode: current.mode,
        metric_type: current.metric_type,
        value: match merge_op(incoming.metric_type, incoming.mode) {
            Some(op) => ValueView {
                first: current.value.first,
                steps: current.value.steps.push(MergeStep { op, bits: incoming.bits }),
            },
            None => ValueView { first: incoming.bits, steps: Seq::empty() },
        },
    }
}

/// Joins one more value to what is known of a key.
pub fn merge_meta(current: &mut EntryMeta, incoming: &Incoming)
    ensures
        final(current)@ == merged_meta(old(current)@, *incoming),
{
    let op = if incoming.metric_type == MetricType::Gauge {
        match incoming.mode {
            MultiprocessMode::Min => Some(MergeOp::Min),
            MultiprocessMode::Max => Some(MergeOp::Max),
            MultiprocessMode::Livesum => Some(MergeOp::Sum),
            MultiprocessMode::All | MultiprocessMode::Liveall => None,
        }
    } else {
        Some(MergeOp::Sum)
    };
    match op {
        Some(op) => {
            current.value.steps.push(MergeStep { op, bits: incoming.bits });
        },
        None => {
            current.value = MergedValue { first: incoming.bits, steps: Vec::new() };
        },
    }
}

/// Whatever the arithmetic, a merge comes to the joined total: the least or the
/// greatest for gauges of those modes, the last for gauges that are kept apart,
/// the sum for all else.
pub proof fn law_merge(
    current: MetaView,
    incoming: Incoming,
    join: spec_fn(MergeOp, u64, u64) -> u64,
)
    ensures
        ({
            let before = total(current.value.first, current.value.steps, join);
            let after = merged_meta(current, incoming).value;
            total(after.first, after.steps, join) == match merge_op(
                incoming.metric_type,
                incoming.mode,
            ) {
                Some(op) => join(op, before, incoming.bits),
                None => incoming.bits,
            }
        }),
{
    match merge_op(incoming.metric_type, incoming.mode) {
        Some(op) => {
            let step = MergeStep { op, bits: incoming.bits };
            assert(current.value.steps.push(step).drop_last() =~= current.value.steps);
        },
        None => {},
    }
}

/// What is known of a key after these further values, one after another.
pub open spec fn merged_all(current: MetaView, incoming: Seq<Incoming>) -> MetaView
    decreases incoming.len(),
{
    if incoming.len() == 0 {
        current
    } else {
        merged_meta(merged_all(current, incoming.drop_last()), incoming.last())
    }
}

/// These values joined, from the first on.
pub open spec fn joined(
    values: Seq<u64>,
    op: MergeOp,
    join: spec_fn(MergeOp, u64, u64) -> u64,
) -> u64
    decreases values.len(),
{
    if values.len() <= 1 {
        values[0]
    } else {
        join(op, joined(values.drop_last(), op, join), values.last())
    }
}

/// The bit patterns of values.
pub open spec fn bits_of(incoming: Seq<Incoming>) -> Seq<u64> {
    incoming.map_values(|value: Incoming| value.bits)
}

/// Whatever the arithmetic, any number of values of files of one type and mode come
/// to all of them joined, from the first on, or to the last where they are kept
/// apart; and what is known of the mode and type of the key stays.
pub proof fn law_merge_all(
    first: Incoming,
    incoming: Seq<Incoming>,
    join: spec_fn(MergeOp, u64, u64) -> u64,
)
    requires
        forall|i: int|
            0 <= i < incoming.len() ==> (#[trigger] incoming[i]).mode == first.mode
                && incoming[i].metric_type == first.metric_type,
    ensures
        ({
            let after = merged_all(first_meta(first), incoming);
            let values = seq![first.bits] + bits_of(incoming);
            &&& after.mode == first.mode
            &&& after.metric_type == first.metric_type
            &&& total(after.value.first, after.value.steps, join) == match merge_op(
                first.metric_type,
                first.mode,
            ) {
                Some(op) => joined(values, op, join),
                None => values.last(),
            }
        }),
    decreases incoming.len(),
{
    let values = seq![first.bits] + bits_of(incoming);
    if incoming.len() > 0 {
        let init = incoming.drop_last();
        let last = incoming.last();
        assert forall|i: int| 0 <= i < init.len() implies (#[trigger] init[i]).mode == first.mode
            && init[i].metric_type == first.metric_type by {
            assert(init[i] == incoming[i]);
        }
        law_merge_all(first, init, join);
        law_merge(merged_all(first_meta(first), init), last, join);
        assert(incoming[incoming.len() - 1] == last);
        assert(values.drop_last() =~= seq![first.bits] + bits_of(init));
        assert(values.last() == last.bits);
    } else {
        assert(values =~= seq![first.bits]);
    }
}

/// Two values joined come to the same in either order, and three in any grouping.
pub open spec fn order_free(op: MergeOp, join: spec_fn(MergeOp, u64, u64) -> u64) -> bool {
    &&& forall|a: u64, b: u64| #[trigger] join(op, a, b) == join(op, b, a)
    &&& forall|a: u64, b: u64, c: u64| #[trigger]
        join(op, join(op, a, b), c) == join(op, a, join(op, b, c))
}

proof fn lemma_joined_without(
    values: Seq<u64>,
    k: int,
    op: MergeOp,
    join: spec_fn(MergeOp, u64, u64) -> u64,
)
    requires
        order_free(op, join),
        0 <= k < values.len(),
        values.len() >= 2,
    ensures
        joined(values, op, join) == join(op, joined(values.remove(k), op, join), values[k]),
    decreases values.len(),
{
    let init = values.drop_last();
    let last = values.last();
    let x = values[k];
    if k == values.len() - 1 {
        assert(values.remove(k) =~= init);
    } else if values.len() == 2 {
        assert(values.remove(k) =~= seq![last]);
        assert(joined(init, op, join) == x);
        assert(join(op, x, last) == join(op, last, x));
    } else {
        lemma_joined_without(init, k, op, join);
        let rest = joined(init.remove(k), op, join);
        assert(values.remove(k).drop_last() =~= init.remove(k));
        assert(join(op, join(op, rest, x), last) == join(op, rest, join(op, x, last)));
        assert(join(op, x, last) == join(op, last, x));
        assert(join(op, join(op, rest, last), x) == join(op, rest, join(op, last, x)));
    }
}

/// Where joining does not depend on order, as with least and greatest values and with
/// sums that are exact, neither does what any number of values come to.
pub proof fn law_joined_in_any_order(
    a: Seq<u64>,
    b: Seq<u64>,
    op: MergeOp,
    join: spec_fn(MergeOp, u64, u64) -> u64,
)
    requires
        order_free(op, join),
        a.len() > 0,
        a.to_multiset() == b.to_multiset(),
    ensures
        joined(a, op, join) == joined(b, op, join),
    decreases a.len(),
{
    broadcast use vstd::seq_lib::group_to_multiset_ensures;

    assert(a.len() == a.to_multiset().len() && b.len() == b.to_multiset().len());
    let x = a.last();
    assert(a[a.len() - 1] == x);
    assert(a.contains(x));
    assert(b.to_multiset().count(x) > 0);
    let k = b.index_of(x);
    if a.len() >= 2 {
        lemma_joined_without(b, k, op, join);
        assert(a.remove(a.len() - 1) =~= a.drop_last());
        law_joined_in_any_order(a.drop_last(), b.remove(k), op, join);
    }
}

/// Whether the processes of such a file keep their values apart.
pub fn is_pid_significant(metric_type: MetricType, mode: MultiprocessMode) -> (r: bool)
    ensures
        r == pid_counts(metric_type, mode),
{
    if metric_type != MetricType::Gauge {
        return false;
    }
    match mode {
        MultiprocessMode::Min | MultiprocessMode::Max | MultiprocessMode::Livesum => false,
        MultiprocessMode::All | MultiprocessMode::Liveall => true,
    }
}

/// Where values keep apart, they replace one another within a process and are
/// never joined; everywhere else they are joined over all processes.
pub proof fn law_apart_or_joined(metric_type: MetricType, mode: MultiprocessMode)
    ensures
        pid_counts(metric_type, mode) <==> merge_op(metric_type, mode) is None,
{
}

/// A key of the merge: the metric, and the process where that counts.
#[verifier::ext_equal]
pub struct EntryKeyView {
    pub metric: MetricKeyView,
    pub pid: Option<Seq<char>>,
}

#[derive(Debug)]
pub struct EntryKey {
    pub metric: StoredMetricKey,
    pub pid: Option<String>,
}

/// The text of an optional string.
pub open spec fn opt_text(s: Option<String>) -> Option<Seq<char>> {
    match s {
        Some(s) => Some(s@),
        None => None,
    }
}

impl View for EntryKey {
    type V = EntryKeyView;

    open spec fn view(&self) -> EntryKeyView {
        EntryKeyView { metric: self.metric@, pid: opt_text(self.pid) }
    }
}

/// No process comes before any.
pub open spec fn pid_before(a: Option<Seq<char>>, b: Option<Seq<char>>) -> bool {
    match b {
        None => false,
        Some(y) => match a {
            None => true,
            Some(x) => text_before(x, y),
        },
    }
}

impl TableKey for EntryKey {
    open spec fn before(a: EntryKeyView, b: EntryKeyView) -> bool {
        if a.metric != b.metric {
            metric_before(a.metric, b.metric)
        } else {
            pid_before(a.pid, b.pid)
        }
    }

    proof fn lemma_order(a: EntryKeyView, b: EntryKeyView, c: EntryKeyView) {
        StoredMetricKey::lemma_order(a.metric, b.metric, c.metric);
        StoredMetricKey::lemma_order(b.metric, c.metric, a.metric);
        let x = a.pid.unwrap_or(Seq::empty());
        let y = b.pid.unwrap_or(Seq::empty());
        let z = c.pid.unwrap_or(Seq::empty());
        lemma_text_order(x, y, z);
        if a.metric == b.metric && a.pid == b.pid {
            assert(a =~= b);
        }
    }

    fn compare(&self, other: &Self) -> (r: KeyOrder) {
        proof {
            StoredMetricKey::lemma_order(self@.metric, other@.metric, self@.metric);
            StoredMetricKey::lemma_order(other@.metric, self@.metric, self@.metric);
        }
        match self.metric.compare(&other.metric) {
            KeyOrder::Same => match (&self.pid, &other.pid) {
                (None, None) => KeyOrder::Same,
                (None, Some(_)) => KeyOrder::Before,
                (Some(_), None) => KeyOrder::After,
                (Some(a), Some(b)) => compare_text(a.as_str(), b.as_str()),
            },
            order => order,
        }
    }
}

/// What is known of every key after one more value.
pub open spec fn merged(
    known: Map<EntryKeyView, MetaView>,
    key: EntryKeyView,
    incoming: Incoming,
) -> Map<EntryKeyView, MetaView> {
    known.insert(
        key,
        if known.dom().contains(key) {
            merged_meta(known[key], incoming)
        } else {
            first_meta(incoming)
        },
    )
}

/// Joins one more value to a table.
pub fn merge_entry(table: &mut KeyTable<EntryKey, EntryMeta>, key: EntryKey, incoming: Incoming)
    requires
        old(table).wf(),
    ensures
        final(table).wf(),
        row_map(final(table)@) == merged(row_map(old(table)@), key@, incoming),
{
    let ghost before = table@;
    let (pos, known) = table.place(&key);
    if known {
        proof {
            lemma_row_map::<EntryKey, MetaView>(before, pos as int);
            lemma_update_row::<EntryKey, MetaView>(
                before,
                pos as int,
                merged_meta(before[pos as int].1, incoming),
            );
        }
        merge_meta(table.value_mut(pos), &incoming);
    } else {
        let meta = EntryMeta {
            mode: incoming.mode,
            metric_type: incoming.metric_type,
            value: MergedValue { first: incoming.bits, steps: Vec::new() },
        };
        assert(meta@ =~= first_meta(incoming));
        table.insert(key, meta);
    }
}

/// The key under which an entry of such a file is merged.
pub open spec fn merge_key(params: FileParamsView, key: MetricKeyView) -> EntryKeyView {
    EntryKeyView {
        metric: key,
        pid: if pid_counts(params.metric_type, params.multiprocess_mode) {
            Some(params.pid)
        } else {
            None
        },
    }
}

/// The value of an entry of such a file.
pub open spec fn merge_value(params: FileParamsView, map: Seq<u8>, at: int) -> Incoming {
    Incoming {
        mode: params.multiprocess_mode,
        metric_type: params.metric_type,
        bits: value_at(map, at),
    }
}

/// What is known of every key after the entries of one more file. An entry whose
/// value is not within the bytes in use is passed over.
pub open spec fn merged_entries(
    known: Map<EntryKeyView, MetaView>,
    params: FileParamsView,
    map: Seq<u8>,
    used: int,
    entries: Seq<FoundView>,
) -> Map<EntryKeyView, MetaView>
    decreases entries.len(),
{
    if entries.len() == 0 {
        known
    } else {
        let so_far = merged_entries(known, params, map, used, entries.drop_last());
        let entry = entries.last();
        if entry.value_at + 8 > used {
            so_far
        } else {
            merged(
                so_far,
                merge_key(params, entry.key),
                merge_value(params, map, entry.value_at),
            )
        }
    }
}

/// Every place leaves room for a value.
pub open spec fn places_fit(entries: Seq<FoundView>) -> bool {
    forall|i: int|
        0 <= i < entries.len() ==> 0 <= (#[trigger] entries[i]).value_at && entries[i].value_at + 8
            <= usize::MAX
}

/// Joins the entries of one more file to a table.
pub fn merge_entries(
    table: &mut KeyTable<EntryKey, EntryMeta>,
    params: &FileParams,
    map: &[u8],
    used: usize,
    entries: &Vec<CachedEntry>,
)
    requires
        old(table).wf(),
        used <= map@.len(),
        places_fit(found(entries@)),
    ensures
        final(table).wf(),
        row_map(final(table)@) == merged_entries(
            row_map(old(table)@),
            params@,
            map@,
            used as int,
            found(entries@),
        ),
{
    let ghost known = row_map(table@);
    let ghost all = found(entries@);
    let pid_significant: bool = is_pid_significant(params.metric_type, params.multiprocess_mode);
    let mut i: usize = 0;
    assert(all.take(0) =~= Seq::<FoundView>::empty());
    while i < entries.len()
        invariant
            i <= entries@.len(),
            all == found(entries@),
            table.wf(),
            used <= map@.len(),
            places_fit(found(entries@)),
            pid_significant == pid_counts(params.metric_type, params.multiprocess_mode),
            row_map(table@) == merged_entries(
                known,
                params@,
                map@,
                used as int,
                all.take(i as int),
            ),
        decreases entries@.len() - i,
    {
        let entry = &entries[i];
        proof {
            let next = all.take(i + 1);
            assert(next.drop_last() =~= all.take(i as int));
            assert(all[i as int] == entry@);
        }
        if entry.value_offset + 8 <= used {
            let pid: Option<String> = if pid_significant {
                Some(params.pid.clone())
            } else {
                None
            };
            let key = EntryKey { metric: entry.metric.clone(), pid };
            let incoming = Incoming {
                mode: params.multiprocess_mode,
                metric_type: params.metric_type,
                bits: read_u64(map, entry.value_offset),
            };
            assert(key@ =~= merge_key(params@, entry@.key));
            merge_entry(table, key, incoming);
        }
        i = i + 1;
    }
    assert(all.take(i as int) =~= all);
}

/// A merge reads nothing of a file but the values that its entries have within the
/// bytes in use.
pub(crate) proof fn lemma_merged_same(
    known: Map<EntryKeyView, MetaView>,
    params: FileParamsView,
    a: Seq<u8>,
    b: Seq<u8>,
    used: int,
    entries: Seq<FoundView>,
)
    requires
        forall|i: int|
            0 <= i < entries.len() && (#[trigger] entries[i]).value_at + 8 <= used ==> value_at(
                a,
                entries[i].value_at,
            ) == value_at(b, entries[i].value_at),
    ensures
        merged_entries(known, params, a, used, entries) == merged_entries(
            known,
            params,
            b,
            used,
            entries,
        ),
    decreases entries.len(),
{
    if entries.len() > 0 {
        let init = entries.drop_last();
        assert forall|i: int|
            0 <= i < init.len() && (#[trigger] init[i]).value_at + 8 <= used implies value_at(
            a,
            init[i].value_at,
        ) == value_at(b, init[i].value_at) by {
            assert(init[i] == entries[i]);
        }
        lemma_merged_same(known, params, a, b, used, init);
        assert(entries[entries.len() - 1] == entries.last());
    }
}

/// The entries of a file leave every key alone that they are not merged under.
pub proof fn law_other_keys_untouched(
    known: Map<EntryKeyView, MetaView>,
    params: FileParamsView,
    map: Seq<u8>,
    used: int,
    entries: Seq<FoundView>,
    key: EntryKeyView,
)
    requires
        forall|i: int|
            0 <= i < entries.len() ==> merge_key(params, (#[trigger] entries[i]).key) != key,
    ensures
        ({
            let after = merged_entries(known, params, map, used, entries);
            &&& after.dom().contains(key) == known.dom().contains(key)
            &&& known.dom().contains(key) ==> after[key] == known[key]
        }),
    decreases entries.len(),
{
    if entries.len() > 0 {
        let init = entries.drop_last();
        assert forall|i: int| 0 <= i < init.len() implies merge_key(
            params,
            (#[trigger] init[i]).key,
        ) != key by {
            assert(init[i] == entries[i]);
        }
        law_other_keys_untouched(known, params, map, used, init, key);
        assert(merge_key(params, entries[entries.len() - 1].key) != key);
    }
}

proof fn lemma_merged_one(
    known: Map<EntryKeyView, MetaView>,
    params: FileParamsView,
    map: Seq<u8>,
    used: int,
    entries: Seq<FoundView>,
    k: int,
)
    requires
        keys_distinct(entries),
        0 <= k < entries.len(),
        entries[k].value_at + 8 <= used,
    ensures
        ({
            let key = merge_key(params, entries[k].key);
            let after = merged_entries(known, params, map, used, entries);
            &&& after.dom().contains(key)
            &&& after[key] == merged(
                known,
                key,
                merge_value(params, map, entries[k].value_at),
            )[key]
        }),
    decreases entries.len(),
{
    let key = merge_key(params, entries[k].key);
    let init = entries.drop_last();
    assert forall|i: int, j: int|
        0 <= i < init.len() && 0 <= j < init.len() && i != j implies (#[trigger] init[i]).key != (
    #[trigger] init[j]).key by {
        assert(init[i] == entries[i] && init[j] == entries[j]);
    }
    if k == entries.len() - 1 {
        assert forall|i: int| 0 <= i < init.len() implies merge_key(
            params,
            (#[trigger] init[i]).key,
        ) != key by {
            assert(init[i] == entries[i]);
            assert(entries[i].key != entries[k].key);
        }
        law_other_keys_untouched(known, params, map, used, init, key);
    } else {
        lemma_merged_one(known, params, map, used, init, k);
        assert(init[k] == entries[k]);
        assert(entries[entries.len() - 1].key != entries[k].key);
    }
}

/// A file that a writer made brings exactly what it says into the merge: each of
/// its keys gets the value that the file has for it, joined to what was known of
/// that key, and no other key is touched.
pub proof fn law_file_brings_its_contents(
    known: Map<EntryKeyView, MetaView>,
    params: FileParamsView,
    map: Seq<u8>,
    key: MetricKeyView,
)
    requires
        complete(map),
        keys_distinct(entries_of(map)),
    ensures
        ({
            let after = merged_entries(known, params, map, used_of(map), entries_of(map));
            let at = merge_key(params, key);
            if contents(map).dom().contains(key) {
                let incoming = Incoming {
                    mode: params.multiprocess_mode,
                    metric_type: params.metric_type,
                    bits: contents(map)[key],
                };
                after.dom().contains(at) && after[at] == merged(known, at, incoming)[at]
            } else {
                &&& after.dom().contains(at) == known.dom().contains(at)
                &&& known.dom().contains(at) ==> after[at] == known[at]
            }
        }),
{
    let entries = entries_of(map);
    if contents(map).dom().contains(key) {
        lemma_position_bounds(map, key);
        let k = choose|i: int|
            0 <= i < entries.len() && (#[trigger] entries[i]).key == key && entries[i].value_at
                == positions_of(entries)[key];
        lemma_merged_one(known, params, map, used_of(map), entries, k);
    } else {
        assert forall|i: int| 0 <= i < entries.len() implies merge_key(
            params,
            (#[trigger] entries[i]).key,
        ) != merge_key(params, key) by {
            lemma_positions(entries, key);
        }
        law_other_keys_untouched(
            known,
            params,
            map,
            used_of(map),
            entries,
            merge_key(params, key),
        );
    }
}

/// One more value of a counter, a histogram or a summary is added to what the key came to
/// before, whatever the mode. One more value of a gauge is the least of the two, the
/// greatest of the two or their sum, or takes the place of the one before, as its mode
/// says. What was known of the mode and the type of the key stays.
pub proof fn law_merge_by_type_and_mode(
    current: MetaView,
    incoming: Incoming,
    join: spec_fn(MergeOp, u64, u64) -> u64,
)
    ensures
        ({
            let before = total(current.value.first, current.value.steps, join);
            let meta = merged_meta(current, incoming);
            let after = total(meta.value.first, meta.value.steps, join);
            &&& meta.mode == current.mode && meta.metric_type == current.metric_type
            &&& match (incoming.metric_type, incoming.mode) {
                (MetricType::Counter, _) => after == join(MergeOp::Sum, before, incoming.bits),
                (MetricType::Histogram, _) => after == join(MergeOp::Sum, before, incoming.bits),
                (MetricType::Summary, _) => after == join(MergeOp::Sum, before, incoming.bits),
                (MetricType::Gauge, MultiprocessMode::Min) => after == join(
                    MergeOp::Min,
                    before,
                    incoming.bits,
                ),
                (MetricType::Gauge, MultiprocessMode::Max) => after == join(
                    MergeOp::Max,
                    before,
                    incoming.bits,
                ),
                (MetricType::Gauge, MultiprocessMode::Livesum) => after == join(
                    MergeOp::Sum,
                    before,
                    incoming.bits,
                ),
                (MetricType::Gauge, MultiprocessMode::All) => after == incoming.bits,
                (MetricType::Gauge, MultiprocessMode::Liveall) => after == incoming.bits,
            }
        }),
{
    law_merge(current, incoming, join);
}

/// Values of gauges that are kept apart are merged under the process that the file names;
/// all other values are merged under their metric alone, whatever process they are of.
pub proof fn law_merge_key(params: FileParamsView, key: MetricKeyView)
    ensures
        merge_key(params, key).metric == key,
        merge_key(params, key).pid == match (params.metric_type, params.multiprocess_mode) {
            (MetricType::Gauge, MultiprocessMode::All) => Some(params.pid),
            (MetricType::Gauge, MultiprocessMode::Liveall) => Some(params.pid),
            _ => None,
        },
{
}

/// What a merged value comes to: the first of its values, to which each further one is
/// joined in turn.
pub proof fn law_total(
    first: u64,
    steps: Seq<MergeStep>,
    step: MergeStep,
    join: spec_fn(MergeOp, u64, u64) -> u64,
)
    ensures
        total(first, Seq::empty(), join) == first,
        total(first, steps.push(step), join) == join(step.op, total(first, steps, join), step.bits),
{
    assert(steps.push(step).drop_last() =~= steps);
}

/// Keys of the merge are ordered by metric, and those of one metric by process, where none
/// comes before any.
pub proof fn law_entry_order(a: EntryKeyView, b: EntryKeyView)
    ensures
        text_before(a.metric.family, b.metric.family) ==> EntryKey::before(a, b),
        a.metric != b.metric ==> (EntryKey::before(a, b) <==> metric_before(a.metric, b.metric)),
        a.metric == b.metric && a.pid is None && b.pid is Some ==> EntryKey::before(a, b),
        a.metric == b.metric && a.pid is Some && b.pid is Some ==> (EntryKey::before(a, b)
            <==> text_before(a.pid.unwrap(), b.pid.unwrap())),
        a.metric == b.metric && b.pid is None ==> !EntryKey::before(a, b),
{
    lemma_text_order(a.metric.family, b.metric.family, a.metric.family);
}

/// The values that files have for a metric, in the order of the files: of each file that
/// says anything of it, what it says.
pub open spec fn values_for(
    files: Seq<(FileParamsView, Seq<u8>)>,
    at: EntryKeyView,
) -> Seq<u64>
    decreases files.len(),
{
    if files.len() == 0 {
        Seq::empty()
    } else {
        let (params, map) = files.last();
        let before = values_for(files.drop_last(), at);
        if merge_key(params, at.metric) == at && contents(map).dom().contains(at.metric) {
            before.push(contents(map)[at.metric])
        } else {
            before
        }
    }
}

/// What is known of every key after these files.
pub open spec fn known_after(files: Seq<(FileParamsView, Seq<u8>)>) -> Map<EntryKeyView, MetaView>
    decreases files.len(),
{
    if files.len() == 0 {
        Map::empty()
    } else {
        let (params, map) = files.last();
        merged_entries(
            known_after(files.drop_last()),
            params,
            map,
            used_of(map),
            entries_of(map),
        )
    }
}

/// Files of one type and mode that writers made, merged: a key is known exactly if some
/// file says something of it, and comes to all that the files say of it, added up for
/// counters, histograms and summaries, and for gauges the least, the greatest, the sum or
/// the last of it, as the mode says.
pub proof fn law_files_of_one_kind(
    files: Seq<(FileParamsView, Seq<u8>)>,
    metric_type: MetricType,
    mode: MultiprocessMode,
    at: EntryKeyView,
    join: spec_fn(MergeOp, u64, u64) -> u64,
)
    requires
        forall|i: int|
            0 <= i < files.len() ==> {
                &&& (#[trigger] files[i]).0.metric_type == metric_type
                &&& files[i].0.multiprocess_mode == mode
                &&& complete(files[i].1)
                &&& keys_distinct(entries_of(files[i].1))
            },
    ensures
        ({
            let known = known_after(files);
            let values = values_for(files, at);
            &&& known.dom().contains(at) <==> values.len() > 0
            &&& values.len() > 0 ==> {
                let number = total(known[at].value.first, known[at].value.steps, join);
                &&& known[at].metric_type == metric_type && known[at].mode == mode
                &&& match (metric_type, mode) {
                    (MetricType::Gauge, MultiprocessMode::Min) => number == joined(
                        values,
                        MergeOp::Min,
                        join,
                    ),
                    (MetricType::Gauge, MultiprocessMode::Max) => number == joined(
                        values,
                        MergeOp::Max,
                        join,
                    ),
                    (MetricType::Gauge, MultiprocessMode::Livesum) => number == joined(
                        values,
                        MergeOp::Sum,
                        join,
                    ),
                    (MetricType::Gauge, MultiprocessMode::All) => number == values.last(),
                    (MetricType::Gauge, MultiprocessMode::Liveall) => number == values.last(),
                    (MetricType::Counter, _) => number == joined(values, MergeOp::Sum, join),
                    (MetricType::Histogram, _) => number == joined(values, MergeOp::Sum, join),
                    (MetricType::Summary, _) => number == joined(values, MergeOp::Sum, join),
                }
            }
        }),
    decreases files.len(),
{
    if files.len() > 0 {
        let init = files.drop_last();
        let (params, map) = files.last();
        assert(files[files.len() - 1] == files.last());
        assert forall|i: int| 0 <= i < init.len() implies {
            &&& (#[trigger] init[i]).0.metric_type == metric_type
            &&& init[i].0.multiprocess_mode == mode
            &&& complete(init[i].1)
            &&& keys_distinct(entries_of(init[i].1))
        } by {
            assert(init[i] == files[i]);
        }
        law_files_of_one_kind(init, metric_type, mode, at, join);
        let before = known_after(init);
        law_file_brings_its_contents(before, params, map, at.metric);
        if merge_key(params, at.metric) != at {
            assert forall|i: int| 0 <= i < entries_of(map).len() implies merge_key(
                params,
                (#[trigger] entries_of(map)[i]).key,
            ) != at by {
                let key = entries_of(map)[i].key;
                if merge_key(params, key) == at {
                    assert(key == at.metric);
                }
            }
            law_other_keys_untouched(before, params, map, used_of(map), entries_of(map), at);
        } else if contents(map).dom().contains(at.metric) {
            let bits = contents(map)[at.metric];
            let incoming = Incoming { mode, metric_type, bits };
            let old = values_for(init, at);
            assert(old.push(bits).drop_last() =~= old);
            if before.dom().contains(at) {
                law_merge_by_type_and_mode(before[at], incoming, join);
            } else {
                assert(total(bits, Seq::<MergeStep>::empty(), join) == bits);
            }
        }
    }
}

/// What merged values and metrics say is what their fields hold.
pub proof fn law_meta_says_its_fields(meta: EntryMeta, key: EntryKey)
    ensures
        meta@.mode == meta.mode,
        meta@.metric_type == meta.metric_type,
        meta@.value.first == meta.value.first,
        meta@.value.steps == meta.value.steps@,
        key@.metric == key.metric@,
        key.pid is None <==> key@.pid is None,
        key.pid is Some ==> key@.pid == Some(key.pid.unwrap()@),
{
}

} // verus!
