//! The Prometheus text format.

use crate::aggregate::{type_text, MetricType};
use crate::metric_key::{
    escape_label_value, escape_text, joined_labels, label_text, labels_text, law_sort_labels,
    sort_labels,
};
use crate::text::{chars_of, push_chars, same_text};
use vstd::prelude::*;
use vstd::string::StringExecFns;

verus! {

/// One line of output: the family it belongs to, the series and its value.
#[verifier::ext_equal]
pub struct RowView {
    pub family: Seq<char>,
    pub metric_type: MetricType,
    pub series: Seq<char>,
    pub value: Seq<char>,
}

#[derive(Debug)]
pub struct Row {
    pub family: String,
    pub metric_type: MetricType,
    pub series: String,
    pub value: String,
}

impl View for Row {
    type V = RowView;

    open spec fn view(&self) -> RowView {
        RowView {
            family: self.family@,
            metric_type: self.metric_type,
            series: self.series@,
            value: self.value@,
        }
    }
}

/// What a list of rows says.
pub open spec fn row_views(rows: Seq<Row>) -> Seq<RowView> {
    rows.map_values(|row: Row| row@)
}

/// The two lines that announce a family.
pub open spec fn family_header(family: Seq<char>, metric_type: MetricType) -> Seq<char> {
    "# HELP "@ + family + " Multiprocess metric\n"@ + "# TYPE "@ + family + seq![' '] + type_text(
        metric_type,
    ) + seq!['\n']
}

/// The line of a row.
pub open spec fn row_line(row: RowView) -> Seq<char> {
    row.series + seq![' '] + row.value + seq!['\n']
}

/// The rows one by one; a row whose family is not that of the row before is
/// announced.
pub open spec fn rendered(rows: Seq<RowView>) -> Seq<char>
    decreases rows.len(),
{
    if rows.len() == 0 {
        Seq::empty()
    } else {
        let row = rows.last();
        let header = if rows.len() > 1 && rows[rows.len() - 2].family == row.family {
            Seq::empty()
        } else {
            family_header(row.family, row.metric_type)
        };
        rendered(rows.drop_last()) + header + row_line(row)
    }
}

/// Announces the family of a row.
fn append_header(out: &mut String, row: &Row)
    ensures
        final(out)@ == old(out)@ + family_header(row@.family, row@.metric_type),
{
    let ghost before = out@;
    out.append("# HELP ");
    out.append(row.family.as_str());
    out.append(" Multiprocess metric\n");
    out.append("# TYPE ");
    out.append(row.family.as_str());
    out.push(' ');
    out.append(row.metric_type.as_prometheus_type());
    out.push('\n');
    assert(out@ =~= before + family_header(row@.family, row@.metric_type));
}

/// Writes the line of a row.
fn append_line(out: &mut String, row: &Row)
    ensures
        final(out)@ == old(out)@ + row_line(row@),
{
    let ghost before = out@;
    out.append(row.series.as_str());
    out.push(' ');
    out.append(row.value.as_str());
    out.push('\n');
    assert(out@ =~= before + row_line(row@));
}

/// Writes rows out.
pub fn render_rows(rows: &Vec<Row>) -> (r: String)
    ensures
        r@ == rendered(row_views(rows@)),
{
    let ghost all = row_views(rows@);
    let mut out: String = String::new();
    let mut i: usize = 0;
    assert(out@ =~= rendered(all.take(0)));
    while i < rows.len()
        invariant
            i <= rows@.len(),
            all == row_views(rows@),
            out@ == rendered(all.take(i as int)),
        decreases rows@.len() - i,
    {
        let row = &rows[i];
        let ghost before = out@;
        let announced: bool = i > 0 && same_text(rows[i - 1].family.as_str(), row.family.as_str());
        if !announced {
            append_header(&mut out, row);
        }
        let ghost header = if announced {
            Seq::empty()
        } else {
            family_header(row@.family, row@.metric_type)
        };
        assert(out@ =~= before + header);
        append_line(&mut out, row);
        proof {
            let next = all.take(i + 1);
            assert(next.drop_last() =~= all.take(i as int));
            assert(next.last() == row@);
            if i > 0 {
                assert(next[next.len() - 2] == rows@[i - 1]@);
            }
        }
        i = i + 1;
    }
    assert(all.take(i as int) =~= all);
    out
}

/// The label of a process, as it stands last among others.
pub open spec fn pid_label(pid: Seq<char>) -> (Seq<char>, Seq<char>) {
    ("pid"@, pid)
}

/// A sample with its labels, and with the label of a process put last where one
/// is given.
pub open spec fn sample_text(
    sample: Seq<char>,
    labels: Seq<char>,
    pid: Option<Seq<char>>,
) -> Seq<char> {
    match pid {
        None => sample + labels,
        Some(pid) => if labels.len() > 0 && labels.last() == '}' {
            let head = labels.drop_last();
            let lead = if head.contains('{') {
                ','
            } else {
                '{'
            };
            sample + head + seq![lead] + label_text(pid_label(pid)) + seq!['}']
        } else {
            sample + labels + seq!['{'] + label_text(pid_label(pid)) + seq!['}']
        },
    }
}

/// Whether a character occurs in `chars[0..to]`.
fn holds_char(chars: &Vec<char>, to: usize, c: char) -> (r: bool)
    requires
        to <= chars@.len(),
    ensures
        r == chars@.take(to as int).contains(c),
{
    let ghost head = chars@.take(to as int);
    let mut i: usize = 0;
    while i < to
        invariant
            i <= to <= chars@.len(),
            head == chars@.take(to as int),
            forall|k: int| 0 <= k < i ==> head[k] != c,
        decreases to - i,
    {
        if chars[i] == c {
            assert(head[i as int] == c);
            return true;
        }
        i = i + 1;
    }
    false
}

/// Writes the label of a process.
fn append_pid(out: &mut String, pid: &str)
    ensures
        final(out)@ == old(out)@ + label_text(pid_label(pid@)) + seq!['}'],
{
    let ghost before = out@;
    let escaped = escape_label_value(pid);
    out.append("pid");
    out.push('=');
    out.push('"');
    out.append(escaped.as_str());
    out.push('"');
    out.push('}');
    assert(out@ =~= before + label_text(pid_label(pid@)) + seq!['}']);
}

/// Writes a sample with its labels, and with the label of a process put last
/// where one is given.
pub fn append_sample(out: &mut String, sample: &str, labels: &str, pid: Option<&str>)
    ensures
        final(out)@ == old(out)@ + sample_text(
            sample@,
            labels@,
            match pid {
                Some(pid) => Some(pid@),
                None => None,
            },
        ),
{
    let ghost before = out@;
    out.append(sample);
    match pid {
        None => {
            out.append(labels);
            assert(out@ =~= before + (sample@ + labels@));
        },
        Some(pid) => {
            let chars = chars_of(labels);
            let n: usize = chars.len();
            if n > 0 && chars[n - 1] == '}' {
                push_chars(out, &chars, 0, n - 1);
                let ghost head = labels@.drop_last();
                assert(chars@.subrange(0, n - 1) =~= head);
                assert(chars@.take(n - 1) =~= head);
                let ghost lead = if head.contains('{') {
                    ','
                } else {
                    '{'
                };
                if holds_char(&chars, n - 1, '{') {
                    out.push(',');
                } else {
                    out.push('{');
                }
                append_pid(out, pid);
                assert(out@ =~= before + (sample@ + head + seq![lead] + label_text(pid_label(pid@))
                    + seq!['}']));
            } else {
                out.append(labels);
                out.push('{');
                append_pid(out, pid);
                assert(out@ =~= before + (sample@ + labels@ + seq!['{'] + label_text(
                    pid_label(pid@),
                ) + seq!['}']));
            }
        },
    }
}

/// On canonical labels the label of a process joins the others as one more.
pub proof fn law_sample_with_pid(
    sample: Seq<char>,
    labels: Seq<(Seq<char>, Seq<char>)>,
    pid: Seq<char>,
)
    ensures
        sample_text(sample, labels_text(labels), Some(pid)) == sample + seq!['{'] + joined_labels(
            sort_labels(labels).push(pid_label(pid)),
        ) + seq!['}'],
{
    broadcast use vstd::seq_lib::group_to_multiset_ensures;

    let sorted = sort_labels(labels);
    let text = labels_text(labels);
    law_sort_labels(labels, Seq::empty());
    assert(sorted.len() == sorted.to_multiset().len());
    assert(labels.len() == labels.to_multiset().len());
    assert(sorted.push(pid_label(pid)).drop_last() =~= sorted);
    if labels.len() == 0 {
        assert(sample_text(sample, text, Some(pid)) =~= sample + seq!['{'] + joined_labels(
            sorted.push(pid_label(pid)),
        ) + seq!['}']);
    } else {
        let head = text.drop_last();
        assert(head =~= seq!['{'] + joined_labels(sorted));
        assert(head[0] == '{');
        assert(head.contains('{'));
        assert(sample_text(sample, text, Some(pid)) =~= sample + seq!['{'] + joined_labels(
            sorted.push(pid_label(pid)),
        ) + seq!['}']);
    }
}

/// In the text of a list of rows, the line of each row stands behind the text of the rows
/// before it, with the two lines that announce its family directly ahead of it if it is
/// the first row or the row before it is of another family, and with nothing ahead of it
/// otherwise.
pub proof fn law_row_announced(rows: Seq<RowView>, i: int) -> (rest: Seq<char>)
    requires
        0 <= i < rows.len(),
    ensures
        ({
            let row = rows[i];
            let named = match row.metric_type {
                MetricType::Counter => "counter"@,
                MetricType::Gauge => "gauge"@,
                MetricType::Histogram => "histogram"@,
                MetricType::Summary => "summary"@,
            };
            let help = "# HELP "@ + row.family + " Multiprocess metric\n"@;
            let kind = "# TYPE "@ + row.family + seq![' '] + named + seq!['\n'];
            let line = row.series + seq![' '] + row.value + seq!['\n'];
            rendered(rows) == (if i == 0 || rows[i - 1].family != row.family {
                rendered(rows.take(i)) + help + kind + line + rest
            } else {
                rendered(rows.take(i)) + line + rest
            })
        }),
    decreases rows.len() - i,
{
    let row = rows[i];
    let named = type_text(row.metric_type);
    let help = "# HELP "@ + row.family + " Multiprocess metric\n"@;
    let kind = "# TYPE "@ + row.family + seq![' '] + named + seq!['\n'];
    let upto = rows.take(i + 1);
    assert(upto.drop_last() =~= rows.take(i));
    assert(upto.last() == row);
    if i > 0 {
        assert(upto[upto.len() - 2] == rows[i - 1]);
    }
    assert(family_header(row.family, row.metric_type) =~= help + kind);
    let rest = lemma_rendered_prefix(rows, i + 1);
    assert(rendered(rows) =~= (if i == 0 || rows[i - 1].family != row.family {
        rendered(rows.take(i)) + help + kind + row_line(row) + rest
    } else {
        rendered(rows.take(i)) + row_line(row) + rest
    }));
    rest
}

proof fn lemma_rendered_prefix(rows: Seq<RowView>, n: int) -> (rest: Seq<char>)
    requires
        0 <= n <= rows.len(),
    ensures
        rendered(rows) == rendered(rows.take(n)) + rest,
    decreases rows.len() - n,
{
    if n == rows.len() {
        assert(rows.take(n) =~= rows);
        assert(rendered(rows) =~= rendered(rows) + Seq::<char>::empty());
        Seq::empty()
    } else {
        let rest = lemma_rendered_prefix(rows, n + 1);
        let upto = rows.take(n + 1);
        assert(upto.drop_last() =~= rows.take(n));
        let row = upto.last();
        let header = if upto.len() > 1 && upto[upto.len() - 2].family == row.family {
            Seq::empty()
        } else {
            family_header(row.family, row.metric_type)
        };
        let more = header + row_line(row) + rest;
        assert(rendered(rows) =~= rendered(rows.take(n)) + more);
        more
    }
}

/// The text of no rows is empty, and the texts of two lists whose families do not meet
/// stand one behind the other.
pub proof fn law_render_concat(a: Seq<RowView>, b: Seq<RowView>)
    requires
        a.len() == 0 || b.len() == 0 || a.last().family != b[0].family,
    ensures
        rendered(a + b) == rendered(a) + rendered(b),
        rendered(Seq::<RowView>::empty()) == Seq::<char>::empty(),
    decreases b.len(),
{
    if b.len() == 0 {
        assert(a + b =~= a);
        assert(rendered(a) + rendered(b) =~= rendered(a));
    } else {
        let whole = a + b;
        law_render_concat(a, b.drop_last());
        assert(whole.drop_last() =~= a + b.drop_last());
        if b.len() > 1 {
            assert(whole[whole.len() - 2] == b[b.len() - 2]);
        } else if a.len() > 0 {
            assert(whole[whole.len() - 2] == a.last());
        }
        assert(rendered(whole) =~= rendered(a) + rendered(b));
    }
}

/// Where the rows of each family stand together, a family is announced with its first row
/// and with no other: how many rows of other families there are does not matter.
pub proof fn law_family_announced_once(rows: Seq<RowView>, i: int) -> (rest: Seq<char>)
    requires
        0 <= i < rows.len(),
        forall|a: int, b: int, c: int|
            0 <= a < b < c < rows.len() && (#[trigger] rows[a]).family == (
            #[trigger] rows[c]).family ==> (#[trigger] rows[b]).family == rows[a].family,
    ensures
        ({
            let row = rows[i];
            let line = row.series + seq![' '] + row.value + seq!['\n'];
            let named = match row.metric_type {
                MetricType::Counter => "counter"@,
                MetricType::Gauge => "gauge"@,
                MetricType::Histogram => "histogram"@,
                MetricType::Summary => "summary"@,
            };
            let first = forall|a: int| 0 <= a < i ==> (#[trigger] rows[a]).family != row.family;
            rendered(rows) == (if first {
                rendered(rows.take(i)) + ("# HELP "@ + row.family + " Multiprocess metric\n"@) + (
                "# TYPE "@ + row.family + seq![' '] + named + seq!['\n']) + line + rest
            } else {
                rendered(rows.take(i)) + line + rest
            })
        }),
{
    let row = rows[i];
    if exists|a: int| 0 <= a < i && (#[trigger] rows[a]).family == row.family {
        let a = choose|a: int| 0 <= a < i && (#[trigger] rows[a]).family == row.family;
        if a < i - 1 {
            assert(rows[a].family == rows[i].family);
            assert(rows[i - 1].family == rows[a].family);
        }
        assert(rows[i - 1].family == row.family);
    } else if i > 0 {
        assert(rows[i - 1].family != row.family);
    }
    law_row_announced(rows, i)
}

/// A sample without a process is its name and its labels. The label of a process goes
/// behind labels in braces, before the closing brace, and else into braces of its own.
pub proof fn law_sample_text(
    sample: Seq<char>,
    inner: Seq<char>,
    labels: Seq<char>,
    pid: Seq<char>,
)
    requires
        labels.len() == 0 || labels.last() != '}',
    ensures
        sample_text(sample, inner, None) == sample + inner,
        ({
            let own = "pid"@ + seq!['=', '"'] + escape_text(pid) + seq!['"'];
            &&& sample_text(sample, seq!['{'] + inner + seq!['}'], Some(pid)) == sample + (seq!['{']
                + inner) + seq![','] + own + seq!['}']
            &&& sample_text(sample, labels, Some(pid)) == sample + labels + seq!['{'] + own
                + seq!['}']
            &&& !inner.contains('{') ==> sample_text(sample, inner + seq!['}'], Some(pid)) == sample
                + inner + seq!['{'] + own + seq!['}']
        }),
{
    let braced = seq!['{'] + inner + seq!['}'];
    assert(braced.drop_last() =~= seq!['{'] + inner);
    assert(braced.last() == '}');
    assert((seq!['{'] + inner)[0] == '{');
    assert((inner + seq!['}']).drop_last() =~= inner);
    assert((inner + seq!['}']).last() == '}');
}

/// What a row says is what its fields hold, and a list of rows says what each of them does.
pub proof fn law_row_says_its_fields(rows: Seq<Row>, i: int)
    requires
        0 <= i < rows.len(),
    ensures
        row_views(rows).len() == rows.len(),
        row_views(rows)[i].family == rows[i].family@,
        row_views(rows)[i].metric_type == rows[i].metric_type,
        row_views(rows)[i].series == rows[i].series@,
        row_views(rows)[i].value == rows[i].value@,
{
}

} // verus!
