//! The key of a stored metric, and label sets in canonical text form.

use crate::key_table::TableKey;
use crate::text::{
    chars_of, compare_text, lemma_text_order, text_before, KeyOrder,
};
use vstd::prelude::*;
use vstd::relations::{sorted_by, total_ordering};
use vstd::seq_lib::lemma_sorted_unique;
use vstd::string::StringExecFns;

verus! {

/// A metric key: family, sample and canonical label text.
#[verifier::ext_equal]
pub struct MetricKeyView {
    pub family: Seq<char>,
    pub sample: Seq<char>,
    pub labels: Seq<char>,
}

#[derive(Debug, Hash, PartialEq, Eq)]
pub struct StoredMetricKey {
    pub family: String,
    pub sample: String,
    pub labels: String,
}

impl View for StoredMetricKey {
    type V = MetricKeyView;

    open spec fn view(&self) -> MetricKeyView {
        MetricKeyView { family: self.family@, sample: self.sample@, labels: self.labels@ }
    }
}

impl StoredMetricKey {
    pub fn new(family: &str, sample: &str, labels: &str) -> (r: Self)
        ensures
            r@ == (MetricKeyView { family: family@, sample: sample@, labels: labels@ }),
    {
        StoredMetricKey {
            family: family.to_owned(),
            sample: sample.to_owned(),
            labels: labels.to_owned(),
        }
    }
}

impl Clone for StoredMetricKey {
    fn clone(&self) -> (r: Self)
        ensures
            r@ == self@,
    {
        StoredMetricKey {
            family: self.family.clone(),
            sample: self.sample.clone(),
            labels: self.labels.clone(),
        }
    }
}

/// `a` comes before `b`: by family, then by sample, then by labels.
pub open spec fn metric_before(a: MetricKeyView, b: MetricKeyView) -> bool {
    if a.family != b.family {
        text_before(a.family, b.family)
    } else if a.sample != b.sample {
        text_before(a.sample, b.sample)
    } else {
        text_before(a.labels, b.labels)
    }
}

impl TableKey for StoredMetricKey {
    open spec fn before(a: MetricKeyView, b: MetricKeyView) -> bool {
        metric_before(a, b)
    }

    proof fn lemma_order(a: MetricKeyView, b: MetricKeyView, c: MetricKeyView) {
        lemma_text_order(a.family, b.family, c.family);
        lemma_text_order(a.sample, b.sample, c.sample);
        lemma_text_order(a.labels, b.labels, c.labels);
        lemma_text_order(b.family, c.family, a.family);
        lemma_text_order(b.sample, c.sample, a.sample);
        lemma_text_order(b.labels, c.labels, a.labels);
        if a.family == b.family && a.sample == b.sample && a.labels == b.labels {
            assert(a =~= b);
        }
        assert(!Self::before(a, a));
        assert(Self::before(a, b) && Self::before(b, c) ==> Self::before(a, c));
    }

    fn compare(&self, other: &Self) -> (r: KeyOrder) {
        proof {
            lemma_text_order(self@.family, other@.family, self@.family);
            lemma_text_order(other@.family, self@.family, self@.family);
            lemma_text_order(self@.sample, other@.sample, self@.sample);
            lemma_text_order(other@.sample, self@.sample, self@.sample);
        }
        match compare_text(self.family.as_str(), other.family.as_str()) {
            KeyOrder::Same => match compare_text(self.sample.as_str(), other.sample.as_str()) {
                KeyOrder::Same => compare_text(self.labels.as_str(), other.labels.as_str()),
                order => order,
            },
            order => order,
        }
    }
}

/// The texts of a list of label names and values.
pub open spec fn label_pairs(labels: Seq<(&str, &str)>) -> Seq<(Seq<char>, Seq<char>)> {
    labels.map_values(|l: (&str, &str)| (l.0@, l.1@))
}

/// `sorted` with `label` put behind every label whose name is not greater.
pub open spec fn insert_label(
    sorted: Seq<(Seq<char>, Seq<char>)>,
    label: (Seq<char>, Seq<char>),
) -> Seq<(Seq<char>, Seq<char>)>
    decreases sorted.len(),
{
    if sorted.len() == 0 || !text_before(label.0, sorted.last().0) {
        sorted.push(label)
    } else {
        insert_label(sorted.drop_last(), label).push(sorted.last())
    }
}

/// The labels by name; labels of one name keep their order.
pub open spec fn sort_labels(labels: Seq<(Seq<char>, Seq<char>)>) -> Seq<(Seq<char>, Seq<char>)>
    decreases labels.len(),
{
    if labels.len() == 0 {
        labels
    } else {
        insert_label(sort_labels(labels.drop_last()), labels.last())
    }
}

/// How a character is written inside a quoted label value.
pub open spec fn escape_char(c: char) -> Seq<char> {
    if c == '\n' {
        seq!['\\', 'n']
    } else if c == '\\' {
        seq!['\\', '\\']
    } else if c == '"' {
        seq!['\\', '"']
    } else {
        seq![c]
    }
}

/// How a label value is written between quotes.
pub open spec fn escape_text(value: Seq<char>) -> Seq<char>
    decreases value.len(),
{
    if value.len() == 0 {
        value
    } else {
        escape_text(value.drop_last()) + escape_char(value.last())
    }
}

/// The label value that stands between quotes as `text`.
pub open spec fn unescape_text(text: Seq<char>) -> Seq<char>
    decreases text.len(),
{
    if text.len() == 0 {
        text
    } else if text[0] == '\\' && text.len() >= 2 {
        seq![if text[1] == 'n' { '\n' } else { text[1] }] + unescape_text(text.skip(2))
    } else {
        seq![text[0]] + unescape_text(text.skip(1))
    }
}

/// One label: its name and its quoted value.
pub open spec fn label_text(label: (Seq<char>, Seq<char>)) -> Seq<char> {
    label.0 + seq!['=', '"'] + escape_text(label.1) + seq!['"']
}

/// The labels with commas between them.
pub open spec fn joined_labels(labels: Seq<(Seq<char>, Seq<char>)>) -> Seq<char>
    decreases labels.len(),
{
    if labels.len() == 0 {
        Seq::empty()
    } else if labels.len() == 1 {
        label_text(labels[0])
    } else {
        joined_labels(labels.drop_last()).push(',') + label_text(labels.last())
    }
}

/// The canonical text of a label set: sorted, escaped, in braces; nothing at
/// all where there are no labels.
pub open spec fn labels_text(labels: Seq<(Seq<char>, Seq<char>)>) -> Seq<char> {
    if labels.len() == 0 {
        Seq::empty()
    } else {
        seq!['{'] + joined_labels(sort_labels(labels)) + seq!['}']
    }
}

fn insert_sorted<'a>(out: &mut Vec<(&'a str, &'a str)>, label: (&'a str, &'a str))
    ensures
        label_pairs(final(out)@) == insert_label(
            label_pairs(old(out)@),
            (label.0@, label.1@),
        ),
{
    let ghost before = label_pairs(out@);
    let ghost pair = (label.0@, label.1@);
    let mut pos: usize = out.len();
    let mut ahead: bool = true;
    proof {
        assert(before.take(pos as int) =~= before);
        assert(insert_label(before, pair) + before.skip(pos as int) =~= insert_label(
            before,
            pair,
        ));
    }
    while pos > 0 && ahead
        invariant
            pos <= out@.len(),
            before == label_pairs(out@),
            pair == (label.0@, label.1@),
            insert_label(before, pair) == insert_label(before.take(pos as int), pair)
                + before.skip(pos as int),
            !ahead ==> pos > 0 && !text_before(pair.0, before[pos - 1].0),
        decreases pos + (if ahead { 1int } else { 0int }),
    {
        match compare_text(label.0, out[pos - 1].0) {
            KeyOrder::Before => {
                proof {
                    let head = before.take(pos as int);
                    assert(head.drop_last() =~= before.take(pos - 1));
                    assert(head.last() == before[pos - 1]);
                    assert(insert_label(head, pair) + before.skip(pos as int) =~= insert_label(
                        before.take(pos - 1),
                        pair,
                    ) + before.skip(pos - 1));
                }
                pos = pos - 1;
            },
            _ => {
                proof {
                    lemma_text_order(pair.0, before[pos - 1].0, pair.0);
                    lemma_text_order(before[pos - 1].0, pair.0, pair.0);
                }
                ahead = false;
            },
        }
    }
    out.insert(pos, label);
    proof {
        let head = before.take(pos as int);
        assert(insert_label(head, pair) =~= head.push(pair));
        assert(label_pairs(out@) =~= head.push(pair) + before.skip(pos as int));
    }
}

/// The canonical text of a label set.
pub fn encode_labels(labels: &[(&str, &str)]) -> (r: String)
    ensures
        r@ == labels_text(label_pairs(labels@)),
{
    let mut out: String = String::new();
    if labels.len() == 0 {
        assert(out@ =~= Seq::<char>::empty());
        return out;
    }
    let mut sorted: Vec<(&str, &str)> = Vec::new();
    let mut i: usize = 0;
    proof {
        assert(label_pairs(sorted@) =~= sort_labels(label_pairs(labels@).take(0)));
    }
    while i < labels.len()
        invariant
            i <= labels@.len(),
            label_pairs(sorted@) == sort_labels(label_pairs(labels@).take(i as int)),
        decreases labels@.len() - i,
    {
        insert_sorted(&mut sorted, labels[i]);
        proof {
            let next = label_pairs(labels@).take(i + 1);
            assert(next.drop_last() =~= label_pairs(labels@).take(i as int));
            assert(next.last() == (labels@[i as int].0@, labels@[i as int].1@));
        }
        i = i + 1;
    }
    proof {
        assert(label_pairs(labels@).take(i as int) =~= label_pairs(labels@));
    }
    let ghost pairs = label_pairs(sorted@);
    out.push('{');
    let mut j: usize = 0;
    proof {
        assert(out@ =~= seq!['{'] + joined_labels(pairs.take(0)));
    }
    while j < sorted.len()
        invariant
            j <= sorted@.len(),
            pairs == label_pairs(sorted@),
            out@ == seq!['{'] + joined_labels(pairs.take(j as int)),
        decreases sorted@.len() - j,
    {
        let ghost before = out@;
        if j > 0 {
            out.push(',');
        }
        out.append(sorted[j].0);
        out.push('=');
        out.push('"');
        let value = escape_label_value(sorted[j].1);
        out.append(value.as_str());
        out.push('"');
        proof {
            let next = pairs.take(j + 1);
            assert(next.drop_last() =~= pairs.take(j as int));
            assert(next.last() == pairs[j as int]);
            let comma = if j > 0 {
                seq![',']
            } else {
                Seq::empty()
            };
            assert(out@ =~= before + comma + label_text(pairs[j as int]));
            if j > 0 {
                assert(out@ =~= seq!['{'] + (joined_labels(pairs.take(j as int)).push(',')
                    + label_text(pairs[j as int])));
            } else {
                assert(out@ =~= seq!['{'] + label_text(next[0]));
            }
        }
        j = j + 1;
    }
    out.push('}');
    proof {
        assert(pairs.take(j as int) =~= pairs);
        lemma_sort_len(label_pairs(labels@));
        assert(out@ =~= seq!['{'] + joined_labels(pairs) + seq!['}']);
    }
    out
}

/// A label value as it is written between quotes.
pub fn escape_label_value(value: &str) -> (r: String)
    ensures
        r@ == escape_text(value@),
{
    let chars = chars_of(value);
    let mut out: String = String::new();
    let mut i: usize = 0;
    proof {
        assert(out@ =~= escape_text(chars@.take(0)));
    }
    while i < chars.len()
        invariant
            i <= chars@.len(),
            out@ == escape_text(chars@.take(i as int)),
        decreases chars@.len() - i,
    {
        let c = chars[i];
        let ghost before = out@;
        if c == '\n' {
            out.push('\\');
            out.push('n');
        } else if c == '\\' {
            out.push('\\');
            out.push('\\');
        } else if c == '"' {
            out.push('\\');
            out.push('"');
        } else {
            out.push(c);
        }
        proof {
            let next = chars@.take(i + 1);
            assert(next.drop_last() =~= chars@.take(i as int));
            assert(out@ =~= before + escape_char(c));
        }
        i = i + 1;
    }
    assert(chars@.take(i as int) =~= value@);
    out
}

proof fn lemma_insert_len(sorted: Seq<(Seq<char>, Seq<char>)>, label: (Seq<char>, Seq<char>))
    ensures
        insert_label(sorted, label).len() == sorted.len() + 1,
        insert_label(sorted, label).to_multiset() == sorted.to_multiset().insert(label),
    decreases sorted.len(),
{
    broadcast use vstd::seq_lib::group_to_multiset_ensures;

    if sorted.len() > 0 && text_before(label.0, sorted.last().0) {
        let init = sorted.drop_last();
        lemma_insert_len(init, label);
        assert(sorted =~= init.push(sorted.last()));
        assert(init.to_multiset().insert(label).insert(sorted.last())
            =~= init.to_multiset().insert(sorted.last()).insert(label));
    }
}

proof fn lemma_sort_len(labels: Seq<(Seq<char>, Seq<char>)>)
    ensures
        sort_labels(labels).len() == labels.len(),
        sort_labels(labels).to_multiset() == labels.to_multiset(),
    decreases labels.len(),
{
    broadcast use vstd::seq_lib::group_to_multiset_ensures;

    if labels.len() > 0 {
        lemma_sort_len(labels.drop_last());
        lemma_insert_len(sort_labels(labels.drop_last()), labels.last());
        assert(labels =~= labels.drop_last().push(labels.last()));
    }
}

proof fn lemma_insert_sorted(sorted: Seq<(Seq<char>, Seq<char>)>, label: (Seq<char>, Seq<char>))
    requires
        forall|i: int, j: int|
            0 <= i < j < sorted.len() ==> !text_before(
                #[trigger] sorted[j].0,
                #[trigger] sorted[i].0,
            ),
    ensures
        ({
            let r = insert_label(sorted, label);
            &&& forall|i: int, j: int|
                0 <= i < j < r.len() ==> !text_before(#[trigger] r[j].0, #[trigger] r[i].0)
            &&& forall|i: int|
                0 <= i < r.len() ==> #[trigger] r[i] == label || exists|k: int|
                    0 <= k < sorted.len() && #[trigger] sorted[k] == r[i]
        }),
    decreases sorted.len(),
{
    let r = insert_label(sorted, label);
    if sorted.len() == 0 {
    } else if !text_before(label.0, sorted.last().0) {
        assert forall|i: int, j: int| 0 <= i < j < r.len() implies !text_before(
            #[trigger] r[j].0,
            #[trigger] r[i].0,
        ) by {
            if j == sorted.len() && i < sorted.len() - 1 {
                assert(!text_before(sorted.last().0, sorted[i].0));
                lemma_text_order(label.0, sorted[i].0, sorted.last().0);
                lemma_text_order(sorted[i].0, sorted.last().0, label.0);
                lemma_text_order(sorted.last().0, sorted[i].0, label.0);
            }
        }
        assert forall|i: int| 0 <= i < r.len() implies #[trigger] r[i] == label || exists|k: int|
            0 <= k < sorted.len() && #[trigger] sorted[k] == r[i] by {
            if i < sorted.len() {
                assert(sorted[i] == r[i]);
            }
        }
    } else {
        let init = sorted.drop_last();
        let ri = insert_label(init, label);
        lemma_insert_sorted(init, label);
        lemma_insert_len(init, label);
        assert forall|i: int, j: int| 0 <= i < j < r.len() implies !text_before(
            #[trigger] r[j].0,
            #[trigger] r[i].0,
        ) by {
            if j == r.len() - 1 {
                assert(r[i] == ri[i]);
                if ri[i] == label {
                    lemma_text_order(label.0, sorted.last().0, label.0);
                } else {
                    let k = choose|k: int| 0 <= k < init.len() && #[trigger] init[k] == ri[i];
                    assert(sorted[k] == r[i]);
                }
            } else {
                assert(r[i] == ri[i] && r[j] == ri[j]);
            }
        }
        assert forall|i: int| 0 <= i < r.len() implies #[trigger] r[i] == label || exists|k: int|
            0 <= k < sorted.len() && #[trigger] sorted[k] == r[i] by {
            if i < r.len() - 1 {
                assert(r[i] == ri[i]);
                if ri[i] != label {
                    let k = choose|k: int| 0 <= k < init.len() && #[trigger] init[k] == ri[i];
                    assert(sorted[k] == r[i]);
                }
            } else {
                assert(sorted[sorted.len() - 1] == r[i]);
            }
        }
    }
}

/// The labels of one name, in their order.
pub open spec fn labels_named(
    labels: Seq<(Seq<char>, Seq<char>)>,
    name: Seq<char>,
) -> Seq<(Seq<char>, Seq<char>)>
    decreases labels.len(),
{
    if labels.len() == 0 {
        labels
    } else if labels.last().0 == name {
        labels_named(labels.drop_last(), name).push(labels.last())
    } else {
        labels_named(labels.drop_last(), name)
    }
}

proof fn lemma_insert_named(
    sorted: Seq<(Seq<char>, Seq<char>)>,
    label: (Seq<char>, Seq<char>),
    name: Seq<char>,
)
    ensures
        labels_named(insert_label(sorted, label), name) == (if label.0 == name {
            labels_named(sorted, name).push(label)
        } else {
            labels_named(sorted, name)
        }),
    decreases sorted.len(),
{
    let r = insert_label(sorted, label);
    if sorted.len() == 0 || !text_before(label.0, sorted.last().0) {
        assert(r.drop_last() =~= sorted);
    } else {
        let init = sorted.drop_last();
        lemma_insert_named(init, label, name);
        assert(r.drop_last() =~= insert_label(init, label));
        lemma_text_order(label.0, sorted.last().0, name);
    }
}

/// Sorting orders the labels by name, keeps every label, and keeps the order of
/// labels that share a name.
pub proof fn law_sort_labels(labels: Seq<(Seq<char>, Seq<char>)>, name: Seq<char>)
    ensures
        sort_labels(labels).to_multiset() == labels.to_multiset(),
        forall|i: int, j: int|
            0 <= i < j < labels.len() ==> !text_before(
                #[trigger] sort_labels(labels)[j].0,
                #[trigger] sort_labels(labels)[i].0,
            ),
        labels_named(sort_labels(labels), name) == labels_named(labels, name),
    decreases labels.len(),
{
    lemma_sort_len(labels);
    if labels.len() > 0 {
        let init = labels.drop_last();
        law_sort_labels(init, name);
        lemma_sort_len(init);
        lemma_insert_sorted(sort_labels(init), labels.last());
        lemma_insert_named(sort_labels(init), labels.last(), name);
    }
}

/// No name occurs twice.
pub open spec fn distinct_names(labels: Seq<(Seq<char>, Seq<char>)>) -> bool {
    forall|i: int, j: int|
        0 <= i < labels.len() && 0 <= j < labels.len() && i != j ==> #[trigger] labels[i].0
            != #[trigger] labels[j].0
}

/// Labels by name, then by value.
spec fn label_order(a: (Seq<char>, Seq<char>), b: (Seq<char>, Seq<char>)) -> bool {
    text_before(a.0, b.0) || (a.0 == b.0 && !text_before(b.1, a.1))
}

proof fn lemma_label_order()
    ensures
        total_ordering(|a: (Seq<char>, Seq<char>), b: (Seq<char>, Seq<char>)| label_order(a, b)),
{
    let leq = |a: (Seq<char>, Seq<char>), b: (Seq<char>, Seq<char>)| label_order(a, b);
    assert forall|a: (Seq<char>, Seq<char>)| #[trigger] leq(a, a) by {
        lemma_text_order(a.1, a.1, a.1);
    }
    assert forall|a: (Seq<char>, Seq<char>), b: (Seq<char>, Seq<char>)| #[trigger]
        leq(a, b) && #[trigger] leq(b, a) implies a == b by {
        lemma_text_order(a.0, b.0, a.0);
        lemma_text_order(a.1, b.1, a.1);
        assert(a.0 == b.0 && a.1 == b.1);
    }
    assert forall|
        a: (Seq<char>, Seq<char>),
        b: (Seq<char>, Seq<char>),
        c: (Seq<char>, Seq<char>),
    | #[trigger]
        leq(a, b) && #[trigger] leq(b, c) implies leq(a, c) by {
        lemma_text_order(a.0, b.0, c.0);
        lemma_text_order(c.1, a.1, b.1);
        lemma_text_order(a.1, b.1, c.1);
        lemma_text_order(b.1, c.1, a.1);
    }
    assert forall|a: (Seq<char>, Seq<char>), b: (Seq<char>, Seq<char>)| #[trigger]
        leq(a, b) || #[trigger] leq(b, a) by {
        lemma_text_order(a.0, b.0, a.0);
        lemma_text_order(a.1, b.1, a.1);
    }
}

proof fn lemma_sorted_by_label_order(labels: Seq<(Seq<char>, Seq<char>)>)
    requires
        distinct_names(labels),
    ensures
        sorted_by(
            sort_labels(labels),
            |a: (Seq<char>, Seq<char>), b: (Seq<char>, Seq<char>)| label_order(a, b),
        ),
{
    broadcast use vstd::seq_lib::group_to_multiset_ensures;

    let s = sort_labels(labels);
    law_sort_labels(labels, Seq::empty());
    lemma_sort_len(labels);
    let leq = |a: (Seq<char>, Seq<char>), b: (Seq<char>, Seq<char>)| label_order(a, b);
    assert forall|i: int, j: int| 0 <= i < j < s.len() implies #[trigger] leq(s[i], s[j]) by {
        lemma_text_order(s[i].0, s[j].0, s[i].0);
        if s[i].0 == s[j].0 {
            let name = s[i].0;
            law_sort_labels(labels, name);
            lemma_named_count(s, name, i, j);
            lemma_named_distinct(labels, name);
        }
    }
}

proof fn lemma_named_count(s: Seq<(Seq<char>, Seq<char>)>, name: Seq<char>, i: int, j: int)
    requires
        0 <= i < j < s.len(),
        s[i].0 == name,
        s[j].0 == name,
    ensures
        labels_named(s, name).len() >= 2,
    decreases s.len(),
{
    let init = s.drop_last();
    if j < init.len() {
        lemma_named_count(init, name, i, j);
    } else {
        lemma_named_once(init, name, i);
    }
}

proof fn lemma_named_once(s: Seq<(Seq<char>, Seq<char>)>, name: Seq<char>, i: int)
    requires
        0 <= i < s.len(),
        s[i].0 == name,
    ensures
        labels_named(s, name).len() >= 1,
    decreases s.len(),
{
    if i < s.len() - 1 {
        lemma_named_once(s.drop_last(), name, i);
    }
}

proof fn lemma_named_distinct(s: Seq<(Seq<char>, Seq<char>)>, name: Seq<char>)
    requires
        distinct_names(s),
    ensures
        labels_named(s, name).len() <= 1,
        (forall|i: int| 0 <= i < s.len() ==> #[trigger] s[i].0 != name) ==> labels_named(
            s,
            name,
        ).len() == 0,
    decreases s.len(),
{
    if s.len() > 0 {
        let init = s.drop_last();
        assert forall|i: int, j: int|
            0 <= i < init.len() && 0 <= j < init.len() && i != j implies #[trigger] init[i].0
            != #[trigger] init[j].0 by {
            assert(s[i].0 != s[j].0);
        }
        lemma_named_distinct(init, name);
        if s.last().0 == name {
            assert forall|i: int| 0 <= i < init.len() implies #[trigger] init[i].0 != name by {
                assert(s[i].0 != s[s.len() - 1].0);
            }
        } else if forall|i: int| 0 <= i < s.len() ==> #[trigger] s[i].0 != name {
            assert forall|i: int| 0 <= i < init.len() implies #[trigger] init[i].0 != name by {
                assert(s[i].0 != name);
            }
        }
    }
}

/// The text of a label set with distinct names does not depend on the order in
/// which the labels are given.
pub proof fn law_labels_canonical(
    a: Seq<(Seq<char>, Seq<char>)>,
    b: Seq<(Seq<char>, Seq<char>)>,
)
    requires
        a.to_multiset() == b.to_multiset(),
        distinct_names(a),
        distinct_names(b),
    ensures
        labels_text(a) == labels_text(b),
{
    broadcast use vstd::seq_lib::group_to_multiset_ensures;

    let leq = |x: (Seq<char>, Seq<char>), y: (Seq<char>, Seq<char>)| label_order(x, y);
    lemma_label_order();
    lemma_sorted_by_label_order(a);
    lemma_sorted_by_label_order(b);
    lemma_sort_len(a);
    lemma_sort_len(b);
    assert(a.len() == a.to_multiset().len());
    assert(b.len() == b.to_multiset().len());
    lemma_sorted_unique(sort_labels(a), sort_labels(b), leq);
}

proof fn lemma_escape_first(value: Seq<char>)
    requires
        value.len() > 0,
    ensures
        escape_text(value) == escape_char(value[0]) + escape_text(value.skip(1)),
    decreases value.len(),
{
    let init = value.drop_last();
    if init.len() > 0 {
        lemma_escape_first(init);
        assert(value.skip(1).drop_last() =~= init.skip(1));
        assert(escape_text(value) =~= escape_char(value[0]) + (escape_text(init.skip(1))
            + escape_char(value.last())));
    } else {
        assert(escape_text(init) =~= Seq::<char>::empty());
        assert(escape_text(value.skip(1)) =~= Seq::<char>::empty());
        assert(escape_text(value) =~= escape_char(value[0]));
    }
}

/// A label value can be read back from its escaped form.
pub proof fn law_unescape(value: Seq<char>)
    ensures
        unescape_text(escape_text(value)) == value,
    decreases value.len(),
{
    if value.len() > 0 {
        let rest = escape_text(value.skip(1));
        let text = escape_char(value[0]) + rest;
        lemma_escape_first(value);
        law_unescape(value.skip(1));
        if escape_char(value[0]).len() == 2 {
            assert(text.skip(2) =~= rest);
        } else {
            assert(text.skip(1) =~= rest);
        }
        assert(unescape_text(text) =~= seq![value[0]] + value.skip(1));
        assert(value =~= seq![value[0]] + value.skip(1));
    }
}

/// Two label values with one escaped form are equal.
pub proof fn law_escape_injective(a: Seq<char>, b: Seq<char>)
    requires
        escape_text(a) == escape_text(b),
    ensures
        a == b,
{
    law_unescape(a);
    law_unescape(b);
}

/// An escaped value stays on its line.
pub proof fn law_escape_one_line(value: Seq<char>)
    ensures
        !escape_text(value).contains('\n'),
    decreases value.len(),
{
    if value.len() > 0 {
        law_escape_one_line(value.drop_last());
        let head = escape_text(value.drop_last());
        let tail = escape_char(value.last());
        assert forall|i: int| 0 <= i < (head + tail).len() implies (head + tail)[i] != '\n' by {
            if i < head.len() {
                assert(head.contains(head[i]));
            }
        }
    }
}

/// A text is escaped piece by piece: where it is cut does not matter.
pub proof fn law_escape_concat(a: Seq<char>, b: Seq<char>)
    ensures
        escape_text(a + b) == escape_text(a) + escape_text(b),
    decreases b.len(),
{
    if b.len() == 0 {
        assert(a + b =~= a);
        assert(escape_text(a) + escape_text(b) =~= escape_text(a));
    } else {
        law_escape_concat(a, b.drop_last());
        assert((a + b).drop_last() =~= a + b.drop_last());
        assert(escape_text(a + b) =~= escape_text(a) + escape_text(b));
    }
}

/// Of a single character, a newline, a backslash and a double quote are written as a
/// backslash and one more character, and every other as it is.
pub proof fn law_escape_one(c: char)
    ensures
        c == '\n' ==> escape_text(seq![c]) == seq!['\\', 'n'],
        c == '\\' ==> escape_text(seq![c]) == seq!['\\', '\\'],
        c == '"' ==> escape_text(seq![c]) == seq!['\\', '"'],
        c != '\n' && c != '\\' && c != '"' ==> escape_text(seq![c]) == seq![c],
{
    assert(seq![c].drop_last() =~= Seq::<char>::empty());
    assert(escape_text(Seq::<char>::empty()) =~= Seq::<char>::empty());
    assert(seq![c].last() == c);
    assert(escape_text(seq![c]) =~= escape_char(c));
}

/// A label value without newlines, backslashes and double quotes is written as it is.
pub proof fn law_escape_plain(value: Seq<char>)
    requires
        !value.contains('\n'),
        !value.contains('\\'),
        !value.contains('"'),
    ensures
        escape_text(value) == value,
    decreases value.len(),
{
    if value.len() > 0 {
        let init = value.drop_last();
        let last = value.last();
        assert(value[value.len() - 1] == last);
        assert forall|c: char| init.contains(c) implies value.contains(c) by {
            let i = init.index_of(c);
            assert(value[i] == c);
        }
        law_escape_plain(init);
        law_escape_one(last);
        law_escape_concat(init, seq![last]);
        assert(init + seq![last] =~= value);
    }
}

/// An escaped value is longer than the value by one for each newline, backslash and
/// double quote in it.
pub proof fn law_escape_len(value: Seq<char>)
    ensures
        escape_text(value).len() == value.len() + value.filter(
            |c: char| c == '\n' || c == '\\' || c == '"',
        ).len(),
    decreases value.len(),
{
    let special = |c: char| c == '\n' || c == '\\' || c == '"';
    reveal(Seq::filter);
    if value.len() > 0 {
        law_escape_len(value.drop_last());
        law_escape_one(value.last());
        law_escape_concat(value.drop_last(), seq![value.last()]);
        assert(value.drop_last() + seq![value.last()] =~= value);
    }
}

/// Labels in canonical text: none at all is no text; a label whose name comes behind no
/// other goes last, behind a comma, as its name, an equals sign and its escaped value in
/// double quotes; and the whole stands in braces.
pub proof fn law_labels_text(
    labels: Seq<(Seq<char>, Seq<char>)>,
    name: Seq<char>,
    value: Seq<char>,
)
    requires
        forall|i: int| 0 <= i < labels.len() ==> !text_before(name, #[trigger] labels[i].0),
    ensures
        labels_text(Seq::empty()) == Seq::<char>::empty(),
        labels_text(labels.push((name, value))) == (if labels.len() == 0 {
            seq!['{']
        } else {
            labels_text(labels).drop_last() + seq![',']
        }) + name + seq!['=', '"'] + escape_text(value) + seq!['"', '}'],
{
    broadcast use vstd::seq_lib::group_to_multiset_ensures;

    let more = labels.push((name, value));
    let sorted = sort_labels(labels);
    assert(more.drop_last() =~= labels);
    lemma_sort_len(labels);
    if labels.len() > 0 {
        let last = sorted.last();
        assert(sorted.contains(last)) by {
            assert(sorted[sorted.len() - 1] == last);
        }
        assert(sorted.to_multiset().count(last) > 0);
        assert(labels.to_multiset().count(last) > 0);
        assert(labels.contains(last));
        let i = labels.index_of(last);
        assert(!text_before(name, labels[i].0));
    }
    assert(sort_labels(more) == sorted.push((name, value)));
    let after = sorted.push((name, value));
    assert(after.drop_last() =~= sorted);
    let own = name + seq!['=', '"'] + escape_text(value) + seq!['"'];
    if labels.len() == 0 {
        assert(joined_labels(after) =~= own);
        assert(labels_text(more) =~= seq!['{'] + name + seq!['=', '"'] + escape_text(value)
            + seq!['"', '}']);
    } else {
        assert(labels_text(labels).drop_last() =~= seq!['{'] + joined_labels(sorted));
        assert(labels_text(more) =~= labels_text(labels).drop_last() + seq![','] + name + seq![
            '=',
            '"',
        ] + escape_text(value) + seq!['"', '}']);
    }
}

/// Keys are ordered by family, then by sample, then by labels, each in the order of texts.
pub proof fn law_metric_order(a: MetricKeyView, b: MetricKeyView)
    ensures
        text_before(a.family, b.family) ==> metric_before(a, b),
        a.family == b.family && text_before(a.sample, b.sample) ==> metric_before(a, b),
        a.family == b.family && a.sample == b.sample ==> (metric_before(a, b) <==> text_before(
            a.labels,
            b.labels,
        )),
        metric_before(a, b) ==> !metric_before(b, a),
{
    lemma_text_order(a.family, b.family, a.family);
    lemma_text_order(a.sample, b.sample, a.sample);
    lemma_text_order(a.labels, b.labels, a.labels);
    lemma_text_order(b.family, a.family, a.family);
    lemma_text_order(b.sample, a.sample, a.sample);
}

/// What a key says is what its fields hold.
pub proof fn law_key_says_its_fields(key: StoredMetricKey)
    ensures
        key@.family == key.family@,
        key@.sample == key.sample@,
        key@.labels == key.labels@,
{
}

/// A list of labels says the name and the value of each, as they are given.
pub proof fn law_label_pairs(labels: Seq<(&str, &str)>, i: int)
    requires
        0 <= i < labels.len(),
    ensures
        label_pairs(labels).len() == labels.len(),
        label_pairs(labels)[i].0 == labels[i].0@,
        label_pairs(labels)[i].1 == labels[i].1@,
{
}

} // verus!
