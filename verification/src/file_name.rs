//! What the name of a metric file says.
//!
//! A file is named `counter_PID.db`, `histogram_PID.db`, `summary_PID.db` or
//! `gauge_MODE_PID.db`. A part may end in a dash and a number, which counts the
//! files of one process and is left out of account.

use crate::aggregate::{
    framed, law_mode_text_injective, law_type_text_injective, mode_text, says, type_text,
    MetricType, MultiprocessMode,
};
use crate::error::MmapError;
use crate::key_table::TableKey;
use crate::path::{
    file_name, file_name_of, joined_path, law_directory_above, law_dot_alone, law_plain_names,
    law_plain_parts,
};
use crate::text::{
    bytes_before, chars_of, compare_bytes, copy_bytes, join_from, join_text, law_join,
    lemma_bytes_before_irreflexive, lemma_bytes_before_total, lemma_bytes_before_transitive,
    lemma_encode_concat, lemma_split_part, lemma_split_whole, push_chars, split_on, split_text,
    texts, KeyOrder,
};
use vstd::prelude::*;
use vstd::utf8::{
    decode_utf8, encode_utf8, encode_utf8_decode_utf8, encode_utf8_valid_utf8, is_ascii_chars,
    is_ascii_chars_encode_utf8, valid_utf8,
};

verus! {

/// A decimal digit.
pub open spec fn is_digit(c: char) -> bool {
    '0' <= c && c <= '9'
}

/// Where the digits at the end of a text begin.
pub open spec fn digits_start(part: Seq<char>) -> int
    decreases part.len(),
{
    if part.len() == 0 || !is_digit(part.last()) {
        part.len() as int
    } else {
        digits_start(part.drop_last())
    }
}

/// A text without the dash and the number that it ends in, if it does.
pub open spec fn strip_number(part: Seq<char>) -> Seq<char> {
    let i = digits_start(part);
    if 0 < i < part.len() && part[i - 1] == '-' {
        part.take(i - 1)
    } else {
        part
    }
}

/// Leaves out the dash and the number that a text ends in.
pub fn strip_file_suffix_number(part: &str) -> (r: String)
    ensures
        r@ == strip_number(part@),
{
    let chars = chars_of(part);
    let mut i: usize = chars.len();
    proof {
        assert(chars@.take(i as int) =~= part@);
    }
    while i > 0 && '0' <= chars[i - 1] && chars[i - 1] <= '9'
        invariant
            i <= chars@.len(),
            digits_start(chars@) == digits_start(chars@.take(i as int)),
        decreases i,
    {
        proof {
            assert(chars@.take(i as int).drop_last() =~= chars@.take(i - 1));
        }
        i = i - 1;
    }
    proof {
        let head = chars@.take(i as int);
        assert(digits_start(head) == i);
    }
    let mut out: String = String::new();
    if i > 0 && i < chars.len() && chars[i - 1] == '-' {
        push_chars(&mut out, &chars, 0, i - 1);
        assert(out@ =~= part@.take(i - 1));
    } else {
        push_chars(&mut out, &chars, 0, chars.len());
        assert(out@ =~= part@);
    }
    out
}

/// The name of a file ends in `.db`, with something before it.
pub open spec fn ends_in_extension(name: Seq<u8>) -> bool {
    &&& name.len() >= 4
    &&& name[name.len() - 3] == 0x2e
    &&& name[name.len() - 2] == 0x64
    &&& name[name.len() - 1] == 0x62
}

/// The file that a path leads to has the extension `db`.
pub open spec fn has_db_extension(path: Seq<u8>) -> bool {
    match file_name_of(path) {
        Some(name) => ends_in_extension(name),
        None => false,
    }
}

/// Whether the file that a path leads to has the extension `db`.
pub fn is_metric_file(path: &[u8]) -> (r: bool)
    ensures
        r == has_db_extension(path@),
{
    match file_name(path) {
        Some(name) => {
            let n: usize = name.len();
            n >= 4 && name[n - 3] == 0x2e && name[n - 2] == 0x64 && name[n - 1] == 0x62
        },
        None => false,
    }
}

/// What the name of a metric file says.
#[verifier::ext_equal]
pub struct FileParamsView {
    pub name: Seq<u8>,
    pub multiprocess_mode: MultiprocessMode,
    pub metric_type: MetricType,
    pub pid: Seq<char>,
}

#[derive(Debug)]
pub struct FileParams {
    pub name: Vec<u8>,
    pub multiprocess_mode: MultiprocessMode,
    pub metric_type: MetricType,
    pub pid: String,
}

impl View for FileParams {
    type V = FileParamsView;

    open spec fn view(&self) -> FileParamsView {
        FileParamsView {
            name: self.name@,
            multiprocess_mode: self.multiprocess_mode,
            metric_type: self.metric_type,
            pid: self.pid@,
        }
    }
}

impl Clone for FileParams {
    fn clone(&self) -> (r: Self)
        ensures
            r@ == self@,
    {
        FileParams {
            name: copy_bytes(self.name.as_slice()),
            multiprocess_mode: self.multiprocess_mode,
            metric_type: self.metric_type,
            pid: self.pid.clone(),
        }
    }
}

/// Where the extension of a name begins: at its last dot, unless that comes first.
pub open spec fn stem_len(name: Seq<u8>, n: int) -> int
    decreases n,
{
    if n <= 0 {
        name.len() as int
    } else if name[n] == 0x2e {
        n
    } else {
        stem_len(name, n - 1)
    }
}

/// The name of a file without its extension.
pub open spec fn stem_of(name: Seq<u8>) -> Seq<u8> {
    name.take(stem_len(name, name.len() - 1))
}

/// The stem of a metric file is its name without `.db`.
pub proof fn law_stem_of_metric_file(name: Seq<u8>)
    requires
        ends_in_extension(name),
    ensures
        stem_of(name) == name.take(name.len() - 3),
{
    reveal_with_fuel(stem_len, 4);
}

/// The parts of a stem, without the numbers that they end in.
pub open spec fn stem_parts(stem: Seq<char>) -> Seq<Seq<char>> {
    split_on(stem, '_').map_values(|part: Seq<char>| strip_number(part))
}

/// What the parts of a stem say, or the words in which they are refused.
pub open spec fn parts_params(name: Seq<u8>, shown: Seq<char>, parts: Seq<Seq<char>>) -> Result<
    FileParamsView,
    Seq<char>,
> {
    if parts[0] == "counter"@ {
        Ok(
            FileParamsView {
                name,
                multiprocess_mode: MultiprocessMode::All,
                metric_type: MetricType::Counter,
                pid: Seq::empty(),
            },
        )
    } else if parts[0] == "histogram"@ {
        Ok(
            FileParamsView {
                name,
                multiprocess_mode: MultiprocessMode::All,
                metric_type: MetricType::Histogram,
                pid: Seq::empty(),
            },
        )
    } else if parts[0] == "summary"@ {
        Ok(
            FileParamsView {
                name,
                multiprocess_mode: MultiprocessMode::All,
                metric_type: MetricType::Summary,
                pid: Seq::empty(),
            },
        )
    } else if parts[0] != "gauge"@ {
        Err("unknown metric type '"@ + parts[0] + "'"@)
    } else if parts.len() < 3 {
        Err("gauge filename missing mode/pid '"@ + shown + "'"@)
    } else if exists|mode: MultiprocessMode| parts[1] == #[trigger] mode_text(mode) {
        Ok(
            FileParamsView {
                name,
                multiprocess_mode: choose|mode: MultiprocessMode|
                    parts[1] == #[trigger] mode_text(mode),
                metric_type: MetricType::Gauge,
                pid: join_from(parts, 2, '_'),
            },
        )
    } else {
        Err("unknown multiprocess mode '"@ + parts[1] + "'"@)
    }
}

/// What the path of a file says, or the words in which it is refused. `shown` is the
/// path as it is shown to people.
pub open spec fn name_params(path: Seq<u8>, shown: Seq<char>) -> Result<FileParamsView, Seq<char>> {
    match file_name_of(path) {
        None => Err("invalid filename '"@ + shown + "'"@),
        Some(name) => if !valid_utf8(stem_of(name)) {
            Err("invalid filename '"@ + shown + "'"@)
        } else {
            parts_params(path, shown, stem_parts(decode_utf8(stem_of(name))))
        },
    }
}

/// The stem of a file name.
fn stem(name: &[u8]) -> (r: &[u8])
    ensures
        r@ == stem_of(name@),
{
    let mut dot: usize = if name.len() == 0 {
        0
    } else {
        name.len() - 1
    };
    while dot > 0 && name[dot] != 0x2e
        invariant
            dot == 0 || dot < name@.len(),
            stem_len(name@, name@.len() - 1) == stem_len(name@, dot as int),
        decreases dot,
    {
        dot = dot - 1;
    }
    let bytes = if dot > 0 {
        &name[0..dot]
    } else {
        name
    };
    assert(bytes@ =~= stem_of(name@));
    bytes
}

/// Reads the path of a metric file.
pub fn parse_file_params(path: &[u8], shown: &str) -> (r: Result<FileParams, MmapError>)
    ensures
        match name_params(path@, shown@) {
            Ok(params) => r is Ok && r.unwrap()@ == params,
            Err(text) => r is Err && says(r->Err_0, text),
        },
{
    let name = match file_name(path) {
        Some(name) => name,
        None => return Err(MmapError::Message(framed("invalid filename '", shown, "'"))),
    };
    let stem_bytes = stem(name.as_slice());
    let stem = match core::str::from_utf8(stem_bytes) {
        Ok(stem) => stem,
        Err(_) => return Err(MmapError::Message(framed("invalid filename '", shown, "'"))),
    };
    let whole = split_text(stem, '_');
    let ghost all = split_on(stem@, '_');
    let mut parts: Vec<String> = Vec::new();
    let mut i: usize = 0;
    while i < whole.len()
        invariant
            i <= whole@.len(),
            all == texts(whole@),
            parts@.len() == i,
            forall|k: int| 0 <= k < i ==> (#[trigger] parts@[k])@ == strip_number(all[k]),
        decreases whole@.len() - i,
    {
        parts.push(strip_file_suffix_number(whole[i].as_str()));
        i = i + 1;
    }
    proof {
        assert(texts(parts@) =~= stem_parts(stem@));
        assert(texts(parts@)[0] == parts@[0]@);
    }
    let metric_type = match MetricType::from_file_prefix(parts[0].as_str()) {
        Ok(metric_type) => metric_type,
        Err(e) => {
            proof {
                lemma_no_type(parts@[0]@);
            }
            return Err(e);
        },
    };
    proof {
        lemma_type(parts@[0]@, metric_type);
    }
    if metric_type != MetricType::Gauge {
        return Ok(
            FileParams {
                name: copy_bytes(path),
                multiprocess_mode: MultiprocessMode::All,
                metric_type,
                pid: String::new(),
            },
        );
    }
    if parts.len() < 3 {
        return Err(MmapError::Message(framed("gauge filename missing mode/pid '", shown, "'")));
    }
    proof {
        assert(texts(parts@)[1] == parts@[1]@);
    }
    let multiprocess_mode = match MultiprocessMode::from_file_part(parts[1].as_str()) {
        Ok(mode) => mode,
        Err(e) => return Err(e),
    };
    proof {
        let chosen = choose|mode: MultiprocessMode| parts@[1]@ == #[trigger] mode_text(mode);
        law_mode_text_injective(chosen, multiprocess_mode);
    }
    let pid = join_text(&parts, 2, '_');
    Ok(FileParams { name: copy_bytes(path), multiprocess_mode, metric_type, pid })
}

/// What a name says does not depend on how its path is shown.
pub proof fn lemma_params_by_name(name: Seq<u8>, a: Seq<char>, b: Seq<char>)
    ensures
        name_params(name, a) is Ok ==> name_params(name, b) == name_params(name, a),
{
}

proof fn lemma_no_type(text: Seq<char>)
    requires
        forall|t: MetricType| text != #[trigger] type_text(t),
    ensures
        text != "counter"@,
        text != "gauge"@,
        text != "histogram"@,
        text != "summary"@,
{
    assert(text != type_text(MetricType::Counter));
    assert(text != type_text(MetricType::Gauge));
    assert(text != type_text(MetricType::Histogram));
    assert(text != type_text(MetricType::Summary));
}

proof fn lemma_type(text: Seq<char>, metric_type: MetricType)
    requires
        text == type_text(metric_type),
    ensures
        text == "counter"@ <==> metric_type == MetricType::Counter,
        text == "gauge"@ <==> metric_type == MetricType::Gauge,
        text == "histogram"@ <==> metric_type == MetricType::Histogram,
        text == "summary"@ <==> metric_type == MetricType::Summary,
{
    assert forall|t: MetricType| text == #[trigger] type_text(t) implies metric_type == t by {
        law_type_text_injective(metric_type, t);
    }
    assert(type_text(MetricType::Counter) == "counter"@);
    assert(type_text(MetricType::Gauge) == "gauge"@);
    assert(type_text(MetricType::Histogram) == "histogram"@);
    assert(type_text(MetricType::Summary) == "summary"@);
}

proof fn lemma_digits_start(head: Seq<char>, digits: Seq<char>)
    requires
        head.len() > 0,
        !is_digit(head.last()),
        forall|i: int| 0 <= i < digits.len() ==> is_digit(#[trigger] digits[i]),
    ensures
        digits_start(head + digits) == head.len(),
    decreases digits.len(),
{
    if digits.len() == 0 {
        assert(head + digits =~= head);
    } else {
        let init = digits.drop_last();
        assert forall|i: int| 0 <= i < init.len() implies is_digit(#[trigger] init[i]) by {
            assert(init[i] == digits[i]);
        }
        lemma_digits_start(head, init);
        assert((head + digits).drop_last() =~= head + init);
        assert(is_digit(digits[digits.len() - 1]));
    }
}

/// The number behind a dash is left out, whatever stands before it; a text that
/// does not end in a digit stays as it is.
pub proof fn law_strip_number(text: Seq<char>, digits: Seq<char>)
    requires
        digits.len() > 0,
        forall|i: int| 0 <= i < digits.len() ==> is_digit(#[trigger] digits[i]),
    ensures
        strip_number(text.push('-') + digits) == text,
        text.len() == 0 || !is_digit(text.last()) ==> strip_number(text) == text,
{
    lemma_digits_start(text.push('-'), digits);
    assert((text.push('-') + digits).take(text.len() as int) =~= text);
}

/// The name that a process gives to a file of gauges says the mode and the process.
pub proof fn law_gauge_name(
    name: Seq<u8>,
    shown: Seq<char>,
    mode: MultiprocessMode,
    pid: Seq<char>,
    digits: Seq<char>,
)
    requires
        !pid.contains('_'),
        digits.len() > 0,
        forall|i: int| 0 <= i < digits.len() ==> is_digit(#[trigger] digits[i]),
    ensures
        parts_params(
            name,
            shown,
            stem_parts(
                ("gauge"@.push('_') + mode_text(mode)).push('_') + (pid.push('-') + digits),
            ),
        ) == Ok::<FileParamsView, Seq<char>>(
            FileParamsView {
                name,
                multiprocess_mode: mode,
                metric_type: MetricType::Gauge,
                pid,
            },
        ),
{
    let last = pid.push('-') + digits;
    let head = "gauge"@.push('_') + mode_text(mode);
    reveal_strlit("gauge");
    reveal_strlit("counter");
    reveal_strlit("histogram");
    reveal_strlit("summary");
    assert("gauge"@.len() == 5 && "counter"@.len() == 7 && "histogram"@.len() == 9
        && "summary"@.len() == 7);
    assert(!"gauge"@.contains('_') && !is_digit("gauge"@.last()));
    assert(!mode_text(mode).contains('_') && mode_text(mode).len() > 0 && !is_digit(
        mode_text(mode).last(),
    )) by {
        reveal_strlit("min");
        reveal_strlit("max");
        reveal_strlit("livesum");
        reveal_strlit("all");
        reveal_strlit("liveall");
    }
    assert(!last.contains('_')) by {
        assert forall|i: int| 0 <= i < last.len() implies last[i] != '_' by {
            if i < pid.len() {
                assert(pid.contains(pid[i]));
            } else if i > pid.len() {
                assert(is_digit(digits[i - pid.len() - 1]));
            }
        }
    }
    lemma_split_whole("gauge"@, '_');
    lemma_split_part("gauge"@, mode_text(mode), '_');
    lemma_split_part(head, last, '_');
    law_strip_number("gauge"@, digits);
    law_strip_number(mode_text(mode), digits);
    law_strip_number(pid, digits);
    let parts = stem_parts(head.push('_') + last);
    assert(parts =~= seq!["gauge"@, mode_text(mode), pid]);
    assert(join_from(parts, 2, '_') == pid);
    let chosen = choose|m: MultiprocessMode| parts[1] == #[trigger] mode_text(m);
    assert(parts[1] == mode_text(mode));
    law_mode_text_injective(chosen, mode);
}

/// The name of a file, as a key.
#[derive(Debug)]
pub struct FileName {
    pub bytes: Vec<u8>,
}

impl View for FileName {
    type V = Seq<u8>;

    open spec fn view(&self) -> Seq<u8> {
        self.bytes@
    }
}

impl TableKey for FileName {
    open spec fn before(a: Seq<u8>, b: Seq<u8>) -> bool {
        bytes_before(a, b)
    }

    proof fn lemma_order(a: Seq<u8>, b: Seq<u8>, c: Seq<u8>) {
        lemma_bytes_before_irreflexive(a);
        if bytes_before(a, b) && bytes_before(b, c) {
            lemma_bytes_before_transitive(a, b, c);
        }
        if bytes_before(a, b) && bytes_before(b, a) {
            lemma_bytes_before_transitive(a, b, a);
        }
        lemma_bytes_before_total(a, b);
    }

    fn compare(&self, other: &Self) -> (r: KeyOrder) {
        compare_bytes(self.bytes.as_slice(), other.bytes.as_slice())
    }
}

/// An entry of a directory: its name, its path as it is shown to people, and
/// whether it is a regular file.
#[derive(Debug)]
pub struct DirEntry {
    pub name: Vec<u8>,
    pub shown: String,
    pub is_file: bool,
}

/// An entry of a directory that is a metric file.
pub open spec fn is_metric_entry(entry: DirEntry) -> bool {
    has_db_extension(entry.name@) && entry.is_file
}

/// A text that ends in a number stays as it is unless a dash stands before the number.
pub proof fn law_strip_nothing(head: Seq<char>, digits: Seq<char>)
    requires
        forall|i: int| 0 <= i < digits.len() ==> is_digit(#[trigger] digits[i]),
        head.len() > 0 ==> head.last() != '-' && !('0' <= head.last() && head.last() <= '9'),
    ensures
        strip_number(head + digits) == head + digits,
{
    if head.len() > 0 {
        lemma_digits_start(head, digits);
    } else {
        assert(head + digits =~= digits);
        lemma_all_digits(digits);
    }
}

proof fn lemma_all_digits(digits: Seq<char>)
    requires
        forall|i: int| 0 <= i < digits.len() ==> is_digit(#[trigger] digits[i]),
    ensures
        digits_start(digits) == 0,
    decreases digits.len(),
{
    if digits.len() > 0 {
        let init = digits.drop_last();
        assert forall|i: int| 0 <= i < init.len() implies is_digit(#[trigger] init[i]) by {
            assert(init[i] == digits[i]);
        }
        lemma_all_digits(init);
        assert(is_digit(digits[digits.len() - 1]));
    }
}

/// A decimal digit is one of the ten characters from zero to nine.
pub proof fn law_digit(c: char)
    ensures
        is_digit(c) <==> 48 <= c as int <= 57,
{
}

proof fn lemma_stem_of_text(text: Seq<char>)
    requires
        text.len() > 0,
        !encode_utf8(text + seq!['.', 'd', 'b']).contains(0x2f),
    ensures
        ({
            let name = encode_utf8(text + seq!['.', 'd', 'b']);
            &&& file_name_of(name) == Some(name)
            &&& ends_in_extension(name)
            &&& valid_utf8(stem_of(name))
            &&& decode_utf8(stem_of(name)) == text
        }),
{
    let ext = seq!['.', 'd', 'b'];
    let name = encode_utf8(text + ext);
    lemma_encode_concat(text, ext);
    encode_utf8_valid_utf8(text);
    encode_utf8_decode_utf8(text);
    assert(is_ascii_chars(ext));
    is_ascii_chars_encode_utf8(ext);
    assert(encode_utf8(ext) =~= seq![0x2eu8, 0x64u8, 0x62u8]);
    assert(encode_utf8(text).len() > 0) by {
        if encode_utf8(text).len() == 0 {
            assert(encode_utf8(text) =~= Seq::<u8>::empty());
            assert(decode_utf8(encode_utf8(text)) =~= Seq::<char>::empty());
        }
    }
    assert(name.len() >= 4);
    assert(name != seq![0x2eu8] && name != seq![0x2eu8, 0x2eu8]);
    law_plain_names(Seq::empty(), name, name);
    law_stem_of_metric_file(name);
    assert(name.take(name.len() - 3) =~= encode_utf8(text));
}

/// A file named after a counter, a histogram or a summary, with anything behind an
/// underscore, is read as one, under no mode of its own and no process.
pub proof fn law_plain_type_name(metric_type: MetricType, rest: Seq<char>, shown: Seq<char>)
    requires
        metric_type != MetricType::Gauge,
        !encode_utf8(type_text(metric_type).push('_') + rest + seq!['.', 'd', 'b']).contains(0x2f),
    ensures
        ({
            let word = match metric_type {
                MetricType::Counter => "counter"@,
                MetricType::Histogram => "histogram"@,
                _ => "summary"@,
            };
            let name = encode_utf8(word.push('_') + rest + seq!['.', 'd', 'b']);
            name_params(name, shown) == Ok::<FileParamsView, Seq<char>>(
                FileParamsView {
                    name,
                    multiprocess_mode: MultiprocessMode::All,
                    metric_type,
                    pid: Seq::empty(),
                },
            )
        }),
{
    let word = type_text(metric_type);
    let text = word.push('_') + rest;
    lemma_stem_of_text(text);
    reveal_strlit("counter");
    reveal_strlit("histogram");
    reveal_strlit("summary");
    assert("counter"@.len() == 7 && "counter"@[0] == 'c');
    assert("histogram"@.len() == 9);
    assert("summary"@.len() == 7 && "summary"@[0] == 's');
    assert(!word.contains('_') && word.len() > 0 && !is_digit(word.last()));
    lemma_split_first(word, rest, '_');
    law_strip_number(word, seq!['0']);
    assert(stem_parts(text)[0] == word);
}

proof fn lemma_split_first(word: Seq<char>, rest: Seq<char>, sep: char)
    requires
        !word.contains(sep),
    ensures
        split_on(word.push(sep) + rest, sep).len() >= 2,
        split_on(word.push(sep) + rest, sep)[0] == word,
        split_on(word.push(sep) + rest, sep).skip(1) == split_on(rest, sep),
    decreases rest.len(),
{
    let whole = word.push(sep) + rest;
    if rest.len() == 0 {
        lemma_split_whole(word, sep);
        lemma_split_part(word, rest, sep);
        lemma_split_whole(rest, sep);
        assert(split_on(whole, sep).skip(1) =~= seq![rest]);
    } else {
        let init = rest.drop_last();
        lemma_split_first(word, init, sep);
        assert(whole.drop_last() =~= word.push(sep) + init);
        let before = split_on(word.push(sep) + init, sep);
        assert(before.skip(1).last() == before.last());
        assert(split_on(whole, sep).skip(1) =~= split_on(rest, sep));
    }
}

/// A gauge file named by the process that made it is read as a gauge of that mode and that
/// process, where the number behind the dash is left out.
pub proof fn law_gauge_file_name(
    mode: MultiprocessMode,
    pid: Seq<char>,
    digits: Seq<char>,
    shown: Seq<char>,
)
    requires
        !pid.contains('_'),
        digits.len() > 0,
        forall|i: int| 0 <= i < digits.len() ==> is_digit(#[trigger] digits[i]),
        !encode_utf8(
            ("gauge"@.push('_') + mode_text(mode)).push('_') + (pid.push('-') + digits) + seq![
                '.',
                'd',
                'b',
            ],
        ).contains(0x2f),
    ensures
        ({
            let word = match mode {
                MultiprocessMode::Min => "min"@,
                MultiprocessMode::Max => "max"@,
                MultiprocessMode::Livesum => "livesum"@,
                MultiprocessMode::All => "all"@,
                MultiprocessMode::Liveall => "liveall"@,
            };
            let name = encode_utf8(
                ("gauge"@.push('_') + word).push('_') + (pid.push('-') + digits) + seq![
                    '.',
                    'd',
                    'b',
                ],
            );
            name_params(name, shown) == Ok::<FileParamsView, Seq<char>>(
                FileParamsView {
                    name,
                    multiprocess_mode: mode,
                    metric_type: MetricType::Gauge,
                    pid,
                },
            )
        }),
{
    let text = ("gauge"@.push('_') + mode_text(mode)).push('_') + (pid.push('-') + digits);
    lemma_stem_of_text(text);
    law_gauge_name(encode_utf8(text + seq!['.', 'd', 'b']), shown, mode, pid, digits);
}

/// A file whose name starts with another word than the four types is refused, with that
/// word; so is a gauge file of an unknown mode, and one with fewer than three parts. The
/// parts are those between underscores, without the numbers behind their dashes.
pub proof fn law_refused_names(name: Seq<u8>, shown: Seq<char>, parts: Seq<Seq<char>>)
    requires
        parts.len() > 0,
    ensures
        parts[0] != "counter"@ && parts[0] != "gauge"@ && parts[0] != "histogram"@ && parts[0]
            != "summary"@ ==> parts_params(name, shown, parts) == Err::<
            FileParamsView,
            Seq<char>,
        >("unknown metric type '"@ + parts[0] + "'"@),
        parts[0] == "gauge"@ && parts.len() < 3 ==> parts_params(name, shown, parts) == Err::<
            FileParamsView,
            Seq<char>,
        >("gauge filename missing mode/pid '"@ + shown + "'"@),
        parts[0] == "gauge"@ && parts.len() >= 3 && parts[1] != "min"@ && parts[1] != "max"@
            && parts[1] != "livesum"@ && parts[1] != "all"@ && parts[1] != "liveall"@
            ==> parts_params(name, shown, parts) == Err::<FileParamsView, Seq<char>>(
            "unknown multiprocess mode '"@ + parts[1] + "'"@,
        ),
        parts[0] == "gauge"@ && parts.len() >= 3 && parts_params(name, shown, parts) is Ok
            ==> parts_params(name, shown, parts)->Ok_0.pid == join_from(parts.skip(2), 0, '_'),
{
    reveal_strlit("counter");
    reveal_strlit("gauge");
    reveal_strlit("histogram");
    reveal_strlit("summary");
    assert("gauge"@.len() == 5 && "counter"@.len() == 7 && "histogram"@.len() == 9
        && "summary"@.len() == 7);
    if parts.len() >= 3 {
        law_join(parts, Seq::empty(), 2, '_');
    }
}

/// A name as directories have them is that of a metric file exactly if it ends in `.db`
/// with something before that; and an entry counts only if it is a regular file.
pub proof fn law_metric_entry(entry: DirEntry)
    requires
        entry.name@.len() > 0,
        !entry.name@.contains(0x2f),
    ensures
        ({
            let name = entry.name@;
            let n = name.len() as int;
            is_metric_entry(entry) <==> entry.is_file && n >= 4 && name[n - 3] == 0x2e && name[n
                - 2] == 0x64 && name[n - 1] == 0x62
        }),
{
    let name = entry.name@;
    if name.len() >= 4 {
        assert(name != seq![0x2eu8] && name != seq![0x2eu8, 0x2eu8]);
        law_plain_names(Seq::empty(), name, name);
    } else if name != seq![0x2eu8] && name != seq![0x2eu8, 0x2eu8] {
        law_plain_names(Seq::empty(), name, name);
    } else if name == seq![0x2eu8, 0x2eu8] {
        law_plain_parts(Seq::empty(), name);
    } else {
        law_dot_alone();
    }
}

/// What the parameters of a file say is what their fields hold.
pub proof fn law_params_say_their_fields(params: FileParams)
    ensures
        params@.name == params.name@,
        params@.multiprocess_mode == params.multiprocess_mode,
        params@.metric_type == params.metric_type,
        params@.pid == params.pid@,
{
}

/// The name of a metric file is read part by part: what stands before `.db` is split at its
/// underscores, and of each part the number behind a dash at its end is left out. A first
/// part that names a counter, a histogram or a summary settles the rest.
pub proof fn law_name_read_by_parts(text: Seq<char>, shown: Seq<char>, i: int)
    requires
        text.len() > 0,
        !encode_utf8(text + seq!['.', 'd', 'b']).contains(0x2f),
    ensures
        ({
            let name = encode_utf8(text + seq!['.', 'd', 'b']);
            let parts = stem_parts(text);
            &&& name_params(name, shown) == parts_params(name, shown, parts)
            &&& parts.len() == split_on(text, '_').len()
            &&& 0 <= i < parts.len() ==> parts[i] == strip_number(split_on(text, '_')[i])
            &&& parts[0] == "counter"@ ==> parts_params(name, shown, parts) == Ok::<
                FileParamsView,
                Seq<char>,
            >(
                FileParamsView {
                    name,
                    multiprocess_mode: MultiprocessMode::All,
                    metric_type: MetricType::Counter,
                    pid: Seq::empty(),
                },
            )
            &&& parts[0] == "histogram"@ ==> parts_params(name, shown, parts) == Ok::<
                FileParamsView,
                Seq<char>,
            >(
                FileParamsView {
                    name,
                    multiprocess_mode: MultiprocessMode::All,
                    metric_type: MetricType::Histogram,
                    pid: Seq::empty(),
                },
            )
            &&& parts[0] == "summary"@ ==> parts_params(name, shown, parts) == Ok::<
                FileParamsView,
                Seq<char>,
            >(
                FileParamsView {
                    name,
                    multiprocess_mode: MultiprocessMode::All,
                    metric_type: MetricType::Summary,
                    pid: Seq::empty(),
                },
            )
        }),
{
    lemma_stem_of_text(text);
    reveal_strlit("counter");
    reveal_strlit("histogram");
    reveal_strlit("summary");
    assert("counter"@.len() == 7 && "counter"@[0] == 'c');
    assert("histogram"@.len() == 9);
    assert("summary"@.len() == 7 && "summary"@[0] == 's');
}

/// A plain name that ends in `.db` and is not UTF-8 before that is refused as invalid.
pub proof fn law_name_not_text(name: Seq<u8>, shown: Seq<char>)
    requires
        name.len() >= 4,
        !name.contains(0x2f),
        name.subrange(name.len() - 3, name.len() as int) == seq![0x2eu8, 0x64u8, 0x62u8],
        !valid_utf8(name.take(name.len() - 3)),
    ensures
        name_params(name, shown) == Err::<FileParamsView, Seq<char>>(
            "invalid filename '"@ + shown + "'"@,
        ),
{
    let n = name.len() as int;
    assert(name[n - 3] == name.subrange(n - 3, n)[0]);
    assert(name[n - 2] == name.subrange(n - 3, n)[1]);
    assert(name[n - 1] == name.subrange(n - 3, n)[2]);
    assert(name != seq![0x2eu8] && name != seq![0x2eu8, 0x2eu8]);
    law_plain_names(Seq::empty(), name, name);
    law_stem_of_metric_file(name);
}

/// A path that leads to no file is refused as invalid, in words that show it.
pub proof fn law_path_without_name(dir: Seq<u8>, shown: Seq<char>)
    ensures
        name_params(joined_path(dir, seq![0x2eu8, 0x2eu8]), shown) == Err::<
            FileParamsView,
            Seq<char>,
        >("invalid filename '"@ + shown + "'"@),
        name_params(seq![0x2eu8], shown) == Err::<FileParamsView, Seq<char>>(
            "invalid filename '"@ + shown + "'"@,
        ),
{
    law_directory_above(dir);
    law_dot_alone();
}

} // verus!
