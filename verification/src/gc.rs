//! Clearing away the metric files of processes that are gone.
//!
//! A run goes round the files of a directory from where the last run stopped. It
//! asks its caller one thing after another: whether a process is alive, how old a
//! file is, whether a file was removed.

use crate::aggregate::MultiprocessMode;
use crate::file_name::{
    is_digit, is_metric_entry, is_metric_file, law_strip_number, strip_file_suffix_number,
    strip_number, DirEntry, FileName,
};
use crate::key_table::{row_map, row_with, KeyTable, TableKey};
use crate::path::{
    file_name, file_name_of, is_plain, join_path, joined_path, law_plain_names, path_view,
    same_path,
};
use crate::text::{
    chars_of, copy_bytes, decimal, digit_char, is_space, join_from, join_text, law_join,
    lemma_split_part,
    lemma_split_whole, push_chars, same_text, split_on, split_text, texts, trim_text, trimmed,
};
use vstd::prelude::*;
use vstd::utf8::{decode_utf8, encode_utf8, valid_utf8};

verus! {

/// The number that a row of decimal digits stands for.
pub open spec fn digits_value(digits: Seq<char>) -> int
    decreases digits.len(),
{
    if digits.len() == 0 {
        0
    } else {
        10 * digits_value(digits.drop_last()) + (digits.last() as int - '0' as int)
    }
}

/// Nothing but decimal digits, and at least one.
pub open spec fn is_number(text: Seq<char>) -> bool {
    text.len() > 0 && forall|i: int| 0 <= i < text.len() ==> is_digit(#[trigger] text[i])
}

/// The part of a stem that names the process, if the stem has one.
pub open spec fn pid_part(parts: Seq<Seq<char>>) -> Option<Seq<char>> {
    if parts[0] == "gauge"@ {
        if parts.len() < 3 {
            None
        } else {
            Some(join_from(parts, 2, '_'))
        }
    } else if parts[0] == "counter"@ || parts[0] == "histogram"@ || parts[0] == "summary"@ {
        if parts.len() < 2 {
            None
        } else {
            Some(join_from(parts, 1, '_'))
        }
    } else {
        None
    }
}

/// The process number that a text says, if it says one.
pub open spec fn pid_number(text: Seq<char>) -> Option<i32> {
    if is_number(text) && 0 < digits_value(text) <= i32::MAX {
        Some(digits_value(text) as i32)
    } else {
        None
    }
}

/// A text ends in `.db`.
pub open spec fn ends_in_db(name: Seq<char>) -> bool {
    &&& name.len() >= 3
    &&& name[name.len() - 3] == '.'
    &&& name[name.len() - 2] == 'd'
    &&& name[name.len() - 1] == 'b'
}

/// The number of the process that a file name names, if it names one by number.
pub open spec fn numeric_pid(name: Seq<char>) -> Option<i32> {
    if !ends_in_db(name) {
        None
    } else {
        match pid_part(split_on(name.take(name.len() - 3), '_')) {
            None => None,
            Some(part) => pid_number(strip_number(part)),
        }
    }
}

proof fn lemma_digits_value(digits: Seq<char>, n: int)
    requires
        0 <= n <= digits.len(),
        forall|i: int| 0 <= i < digits.len() ==> is_digit(#[trigger] digits[i]),
    ensures
        0 <= digits_value(digits.take(n)) <= digits_value(digits),
    decreases digits.len(),
{
    let init = digits.drop_last();
    if n < digits.len() {
        assert forall|i: int| 0 <= i < init.len() implies is_digit(#[trigger] init[i]) by {
            assert(init[i] == digits[i]);
        }
        lemma_digits_value(init, n);
        assert(init.take(n) =~= digits.take(n));
        assert(is_digit(digits[digits.len() - 1]));
    } else {
        assert(digits.take(n) =~= digits);
        if digits.len() > 0 {
            assert forall|i: int| 0 <= i < init.len() implies is_digit(#[trigger] init[i]) by {
                assert(init[i] == digits[i]);
            }
            lemma_digits_value(init, init.len() as int);
            assert(init.take(init.len() as int) =~= init);
            assert(is_digit(digits[digits.len() - 1]));
        }
    }
}

/// The process number that a text says, if it says one.
pub fn parse_pid(text: &str) -> (r: Option<i32>)
    ensures
        r == pid_number(text@),
{
    let chars = chars_of(text);
    if chars.len() == 0 {
        return None;
    }
    let mut i: usize = 0;
    while i < chars.len()
        invariant
            i <= chars@.len(),
            chars@ == text@,
            forall|k: int| 0 <= k < i ==> is_digit(#[trigger] chars@[k]),
        decreases chars@.len() - i,
    {
        if chars[i] < '0' || '9' < chars[i] {
            assert(!is_digit(text@[i as int]));
            return None;
        }
        i = i + 1;
    }
    let mut value: i64 = 0;
    let mut j: usize = 0;
    assert(digits_value(chars@.take(0)) == 0);
    while j < chars.len()
        invariant
            j <= chars@.len(),
            chars@ == text@,
            is_number(text@),
            forall|k: int| 0 <= k < chars@.len() ==> is_digit(#[trigger] chars@[k]),
            value == digits_value(chars@.take(j as int)),
            0 <= value <= i32::MAX,
        decreases chars@.len() - j,
    {
        assert(is_digit(chars@[j as int]));
        let digit: i64 = (chars[j] as u32 - '0' as u32) as i64;
        value = 10 * value + digit;
        proof {
            let next = chars@.take(j + 1);
            assert(next.drop_last() =~= chars@.take(j as int));
            assert(next.last() == chars@[j as int]);
            lemma_digits_value(chars@, j + 1);
        }
        if value > i32::MAX as i64 {
            return None;
        }
        j = j + 1;
    }
    assert(chars@.take(j as int) =~= text@);
    if value > 0 {
        Some(value as i32)
    } else {
        None
    }
}

/// The number of the process that a file name names, if it names one by number.
pub fn extract_numeric_pid(filename: &str) -> (r: Option<i32>)
    ensures
        r == numeric_pid(filename@),
{
    let chars = chars_of(filename);
    let n: usize = chars.len();
    if n < 3 || chars[n - 3] != '.' || chars[n - 2] != 'd' || chars[n - 1] != 'b' {
        return None;
    }
    let mut stem: String = String::new();
    push_chars(&mut stem, &chars, 0, n - 3);
    assert(stem@ =~= filename@.take(n - 3));
    let parts = split_text(stem.as_str(), '_');
    assert(texts(parts@)[0] == parts@[0]@);
    let part: String = if same_text(parts[0].as_str(), "gauge") {
        if parts.len() < 3 {
            return None;
        }
        join_text(&parts, 2, '_')
    } else if same_text(parts[0].as_str(), "counter") || same_text(parts[0].as_str(), "histogram")
        || same_text(parts[0].as_str(), "summary") {
        if parts.len() < 2 {
            return None;
        }
        join_text(&parts, 1, '_')
    } else {
        return None;
    };
    let pid = strip_file_suffix_number(part.as_str());
    parse_pid(pid.as_str())
}

/// What a signal to a process says of it: `rc` is what `kill` with signal zero
/// returns, `not_permitted` whether it failed for want of permission. A process
/// that may not be signalled is alive.
pub fn is_pid_alive(rc: i32, not_permitted: bool) -> (r: bool)
    ensures
        r == (rc == 0 || not_permitted),
{
    rc == 0 || not_permitted
}

/// What asking for the lock of a directory comes to.
#[derive(Debug, Clone, Copy, PartialEq, Eq, Structural)]
pub enum LockOutcome {
    Locked,
    /// Someone else holds it.
    Busy,
    Failed,
}

/// What asking for a lock comes to: `rc` is what `flock` returns, `code` the error
/// it leaves, and the other two are the errors that say that the lock is held.
pub fn lock_outcome(rc: i32, code: i32, would_block: i32, again: i32) -> (r: LockOutcome)
    ensures
        r == if rc == 0 {
            LockOutcome::Locked
        } else if code == would_block || code == again {
            LockOutcome::Busy
        } else {
            LockOutcome::Failed
        },
{
    if rc == 0 {
        LockOutcome::Locked
    } else if code == would_block || code == again {
        LockOutcome::Busy
    } else {
        LockOutcome::Failed
    }
}

/// The bounds of a run.
#[derive(Debug, Clone, Copy, PartialEq, Eq, Structural)]
pub struct GcLimits {
    /// Milliseconds that the run may take.
    pub budget_ms: u64,
    /// Files that the run may look at.
    pub scan_limit: usize,
    /// Files that the run may remove.
    pub delete_limit: usize,
    /// Seconds that a file is left alone after its last change.
    pub dead_grace_sec: u64,
}

/// `n`, or one if it is less.
pub open spec fn at_least_one(n: i64) -> i64 {
    if n < 1 {
        1
    } else {
        n
    }
}

impl GcLimits {
    /// Milliseconds that the run may take: at least one.
    pub fn time_ms(&self) -> (r: u64)
        ensures
            r == (if self.budget_ms < 1 {
                1
            } else {
                self.budget_ms
            }),
    {
        if self.budget_ms < 1 {
            1
        } else {
            self.budget_ms
        }
    }

    /// The bounds that a caller asks for: time and counts are at least one, and no
    /// time before the last change counts as none.
    pub fn from_request(
        budget_ms: i64,
        scan_limit: i64,
        delete_limit: i64,
        dead_grace_sec: i64,
    ) -> (r: Self)
        ensures
            r.budget_ms == at_least_one(budget_ms),
            r.scan_limit == at_least_one(scan_limit) as usize,
            r.delete_limit == at_least_one(delete_limit) as usize,
            r.dead_grace_sec == (if dead_grace_sec < 0 {
                0
            } else {
                dead_grace_sec as int
            }),
    {
        let budget_ms: i64 = if budget_ms < 1 {
            1
        } else {
            budget_ms
        };
        let scan_limit: i64 = if scan_limit < 1 {
            1
        } else {
            scan_limit
        };
        let delete_limit: i64 = if delete_limit < 1 {
            1
        } else {
            delete_limit
        };
        let dead_grace_sec: i64 = if dead_grace_sec < 0 {
            0
        } else {
            dead_grace_sec
        };
        GcLimits {
            budget_ms: budget_ms as u64,
            scan_limit: scan_limit as usize,
            delete_limit: delete_limit as usize,
            dead_grace_sec: dead_grace_sec as u64,
        }
    }
}

/// The names of the metric files among the first `n` entries of a directory.
pub open spec fn metric_names(listing: Seq<DirEntry>, n: int) -> Set<Seq<u8>>
    decreases n,
{
    if n <= 0 {
        Set::empty()
    } else if is_metric_entry(listing[n - 1]) {
        metric_names(listing, n - 1).insert(listing[n - 1].name@)
    } else {
        metric_names(listing, n - 1)
    }
}

/// The first number of a run over `count` files when `last` was the last number
/// of the run before.
pub open spec fn after(last: int, count: int) -> int {
    if last + 1 < count {
        last + 1
    } else {
        0
    }
}

/// The number of the file that comes after `processed` others.
pub open spec fn round(start: int, processed: int, count: int) -> int {
    if start + processed < count {
        start + processed
    } else {
        start + processed - count
    }
}

/// A name of the run leads to the place that the cursor names.
pub open spec fn leads_to(names: Seq<Seq<u8>>, dir: Seq<u8>, cursor: Seq<u8>, i: int) -> bool {
    path_view(joined_path(dir, names[i])) == path_view(joined_path(dir, cursor))
}

/// The first name from number `i` on that leads to the place which the cursor names.
pub open spec fn cursor_place(names: Seq<Seq<u8>>, dir: Seq<u8>, cursor: Seq<u8>, i: int) -> Option<
    int,
>
    decreases names.len() - i,
{
    if i < 0 || i >= names.len() {
        None
    } else if leads_to(names, dir, cursor, i) {
        Some(i)
    } else {
        cursor_place(names, dir, cursor, i + 1)
    }
}

/// Where a run starts: after the file that the cursor names, or else at the first.
pub open spec fn start_of(names: Seq<Seq<u8>>, dir: Seq<u8>, cursor: Seq<char>) -> int {
    if cursor.len() == 0 {
        0
    } else {
        match cursor_place(names, dir, encode_utf8(cursor), 0) {
            Some(last) => after(last, names.len() as int),
            None => 0,
        }
    }
}

proof fn lemma_first_place(names: Seq<Seq<u8>>, dir: Seq<u8>, cursor: Seq<u8>, pos: int, i: int)
    requires
        0 <= i <= pos <= names.len(),
        forall|k: int| i <= k < pos ==> !leads_to(names, dir, cursor, k),
        pos < names.len() ==> leads_to(names, dir, cursor, pos),
    ensures
        cursor_place(names, dir, cursor, i) == (if pos < names.len() {
            Some(pos)
        } else {
            None
        }),
    decreases pos - i,
{
    if i < pos {
        assert(!leads_to(names, dir, cursor, i));
        lemma_first_place(names, dir, cursor, pos, i + 1);
    }
}

/// A file that a run came to, named by the number of a process.
#[derive(Debug, Clone, Copy, PartialEq, Eq, Structural)]
pub struct Probed {
    pub file: usize,
    pub pid: i32,
}

/// What was answered about a file: whether its process is alive, when the file was
/// last changed, and when that was looked up, in seconds.
#[derive(Debug, Clone, Copy, PartialEq, Eq, Structural)]
pub struct Verdict {
    pub alive: bool,
    pub mtime: u64,
    pub now: u64,
}

/// A file of which this was answered may go: its process is gone, and it is no
/// longer left alone.
pub open spec fn may_go(verdict: Verdict, limits: GcLimits) -> bool {
    !verdict.alive && (verdict.now - verdict.mtime >= limits.dead_grace_sec
        || limits.dead_grace_sec == 0)
}

/// A removal: how many files the run had come to before, the file, and what was
/// answered about it.
pub struct Removal {
    pub visit: int,
    pub probed: Probed,
    pub verdict: Verdict,
}

/// The number of the process that a file is named by.
pub open spec fn named_pid(path: Seq<u8>) -> Option<i32> {
    match shown_name(path) {
        Some(name) => numeric_pid(name),
        None => None,
    }
}

/// The name of a file as text, if it is text.
pub open spec fn shown_name(path: Seq<u8>) -> Option<Seq<char>> {
    match file_name_of(path) {
        Some(name) => if valid_utf8(name) {
            Some(decode_utf8(name))
        } else {
            None
        },
        None => None,
    }
}

/// A run: the names of the files in order, where it started, how many it has looked
/// at, the last name it came to, the file that it asks about, the answer for which
/// that file is to go, and what was removed.
#[verifier::ext_equal]
pub struct GcView {
    pub names: Seq<Seq<u8>>,
    pub start: int,
    pub processed: int,
    pub deleted: int,
    pub last_seen: Option<Seq<char>>,
    pub pending: Option<Probed>,
    pub condemned: Option<Verdict>,
    pub removed: Seq<Removal>,
    pub limits: GcLimits,
    pub full: bool,
}

pub struct GcRun {
    names: KeyTable<FileName, ()>,
    start: usize,
    processed: usize,
    deleted: usize,
    last_seen: Option<String>,
    pending: Option<Probed>,
    condemned: Option<Verdict>,
    removed: Ghost<Seq<Removal>>,
    limits: GcLimits,
    full: bool,
}

impl View for GcRun {
    type V = GcView;

    closed spec fn view(&self) -> GcView {
        GcView {
            names: self.names@.map_values(|row: (Seq<u8>, ())| row.0),
            start: self.start as int,
            processed: self.processed as int,
            deleted: self.deleted as int,
            last_seen: match self.last_seen {
                Some(s) => Some(s@),
                None => None,
            },
            pending: self.pending,
            condemned: self.condemned,
            removed: self.removed@,
            limits: self.limits,
            full: self.full,
        }
    }
}

impl GcView {
    /// The file is the one that the run came to after `visit` others, and is named by
    /// the number of that process.
    pub open spec fn came_to(self, visit: int, probed: Probed) -> bool {
        &&& 0 <= visit < self.processed
        &&& probed.file == round(self.start, visit, self.names.len() as int)
        &&& probed.file < self.names.len()
        &&& named_pid(self.names[probed.file as int]) == Some(probed.pid)
    }

    /// The names stand in order, each once. The run stays within its limits. What it
    /// asks about is the file it came to last; what is to go, and what was removed, is
    /// named by the number of a process that was answered to be gone and was old
    /// enough, and no visit led to two removals.
    pub open spec fn wf(self) -> bool {
        &&& forall|i: int, j: int|
            0 <= i < j < self.names.len() ==> FileName::before(
                #[trigger] self.names[i],
                #[trigger] self.names[j],
            )
        &&& 0 <= self.start
        &&& self.names.len() > 0 ==> self.start < self.names.len()
        &&& 0 <= self.deleted <= self.processed <= self.names.len()
        &&& self.processed <= self.limits.scan_limit
        &&& self.full <==> self.deleted > 0 && self.deleted >= self.limits.delete_limit
        &&& self.deleted <= 1 || self.deleted <= self.limits.delete_limit
        &&& self.deleted == self.removed.len()
        &&& forall|i: int|
            0 <= i < self.removed.len() ==> self.came_to(
                (#[trigger] self.removed[i]).visit,
                self.removed[i].probed,
            ) && may_go(self.removed[i].verdict, self.limits)
        &&& forall|i: int, j: int|
            0 <= i < j < self.removed.len() ==> (#[trigger] self.removed[i]).visit < (
            #[trigger] self.removed[j]).visit
        &&& self.pending matches Some(probed) ==> {
            &&& !self.full
            &&& self.deleted < self.processed
            &&& self.came_to(self.processed - 1, probed)
            &&& forall|i: int|
                0 <= i < self.removed.len() ==> (#[trigger] self.removed[i]).visit
                    < self.processed - 1
        }
        &&& self.condemned matches Some(verdict) ==> self.pending is Some && may_go(
            verdict,
            self.limits,
        )
    }

    /// Nothing is left to look at.
    pub open spec fn is_over(self) -> bool {
        self.full || self.processed >= self.limits.scan_limit || self.processed
            >= self.names.len()
    }

    /// The number of the next file.
    pub open spec fn next_file(self) -> int {
        round(self.start, self.processed, self.names.len() as int)
    }

    /// What the run asks about after a look at the next file.
    pub open spec fn next_probe(self) -> Option<Probed> {
        match named_pid(self.names[self.next_file()]) {
            Some(pid) => Some(Probed { file: self.next_file() as usize, pid }),
            None => None,
        }
    }

    /// The run after a look at the next file.
    pub open spec fn looked(self) -> GcView {
        GcView {
            processed: self.processed + 1,
            last_seen: match shown_name(self.names[self.next_file()]) {
                Some(name) => Some(name),
                None => self.last_seen,
            },
            pending: self.next_probe(),
            condemned: None,
            ..self
        }
    }
}

/// What a run asks for next.
#[derive(Debug, Clone, Copy, PartialEq, Eq, Structural)]
pub enum GcStep {
    /// Nothing: it is over.
    Finished,
    /// Nothing about this file: it stays.
    Skip,
    /// Whether this process is alive; the number of the file says which one it
    /// left behind.
    Probe { pid: i32, file: usize },
}

impl GcRun {
    pub open spec fn wf(self) -> bool {
        self@.wf()
    }

    /// A run over the metric files of the directory `dir`. `cursor` is what the run
    /// before wrote down: the path, from the directory, of the file it came to last.
    pub fn new(listing: &Vec<DirEntry>, dir: &str, cursor: &str, limits: GcLimits) -> (r: Self)
        ensures
            r.wf(),
            forall|name: Seq<u8>| #[trigger]
                r@.names.contains(name) <==> metric_names(
                    listing@,
                    listing@.len() as int,
                ).contains(name),
            r@.start == start_of(r@.names, encode_utf8(dir@), trimmed(cursor@)),
            r@.processed == 0,
            r@.deleted == 0,
            r@.last_seen is None,
            r@.pending is None,
            r@.condemned is None,
            r@.limits == limits,
            !r@.full,
    {
        let mut names: KeyTable<FileName, ()> = KeyTable::new();
        let mut i: usize = 0;
        while i < listing.len()
            invariant
                i <= listing@.len(),
                names.wf(),
                forall|name: Seq<u8>| #[trigger]
                    row_map(names@).dom().contains(name) <==> metric_names(
                        listing@,
                        i as int,
                    ).contains(name),
            decreases listing@.len() - i,
        {
            let entry = &listing[i];
            if is_metric_file(entry.name.as_slice()) && entry.is_file {
                let name = FileName { bytes: copy_bytes(entry.name.as_slice()) };
                names.insert(name, ());
            }
            i = i + 1;
        }
        let ghost rows = names@;
        let ghost all = names@.map_values(|row: (Seq<u8>, ())| row.0);
        proof {
            assert forall|name: Seq<u8>| #[trigger] all.contains(name) <==> row_map(
                rows,
            ).dom().contains(name) by {
                if all.contains(name) {
                    let k = all.index_of(name);
                    assert(rows[k].0 == name);
                }
                if row_map(rows).dom().contains(name) {
                    let k = row_with(rows, name);
                    assert(all[k] == name);
                }
            }
        }
        let cursor = trim_text(cursor);
        let ghost dir_bytes = encode_utf8(dir@);
        let ghost target = encode_utf8(cursor@);
        let mut start: usize = 0;
        if !cursor.as_str().is_empty() {
            let place = join_path(dir.as_bytes(), cursor.as_str().as_bytes());
            let count: usize = names.len();
            let mut pos: usize = 0;
            let mut found: bool = false;
            while pos < count && !found
                invariant
                    pos <= count,
                    count == names@.len(),
                    all == names@.map_values(|row: (Seq<u8>, ())| row.0),
                    dir_bytes == encode_utf8(dir@),
                    place@ == joined_path(dir_bytes, target),
                    forall|k: int| 0 <= k < pos ==> !leads_to(all, dir_bytes, target, k),
                    found ==> pos < count && leads_to(all, dir_bytes, target, pos as int),
                decreases
                    count - pos + (if found {
                        0int
                    } else {
                        1int
                    }),
            {
                let path = join_path(dir.as_bytes(), names.key(pos).bytes.as_slice());
                assert(all[pos as int] == names@[pos as int].0);
                if same_path(path.as_slice(), place.as_slice()) {
                    found = true;
                } else {
                    pos = pos + 1;
                }
            }
            proof {
                lemma_first_place(all, dir_bytes, target, pos as int, 0);
            }
            if found {
                start = if pos < count - 1 {
                    pos + 1
                } else {
                    0
                };
            }
        }
        let run = GcRun {
            names,
            start,
            processed: 0,
            deleted: 0,
            last_seen: None,
            pending: None,
            condemned: None,
            removed: Ghost(Seq::empty()),
            limits,
            full: false,
        };
        assert(run@.names =~= all);
        run
    }

    /// The number of files of the run.
    pub fn len(&self) -> (r: usize)
        ensures
            r == self@.names.len(),
    {
        self.names.len()
    }

    /// The name of a file of the run.
    pub fn name(&self, file: usize) -> (r: &FileName)
        requires
            file < self@.names.len(),
        ensures
            r@ == self@.names[file as int],
    {
        self.names.key(file)
    }

    /// The number of files that were removed.
    pub fn deleted(&self) -> (r: usize)
        ensures
            r == self@.deleted,
    {
        self.deleted
    }

    /// Goes on to the next file. `expired` says that the time of the run is up.
    pub fn step(&mut self, expired: bool) -> (r: GcStep)
        requires
            old(self).wf(),
        ensures
            final(self).wf(),
            ({
                let run = old(self)@;
                if run.is_over() || expired {
                    r == GcStep::Finished && final(self)@ == run
                } else {
                    &&& final(self)@ == run.looked()
                    &&& r == match run.next_probe() {
                        None => GcStep::Skip,
                        Some(probed) => GcStep::Probe { pid: probed.pid, file: probed.file },
                    }
                }
            }),
    {
        let ghost run = self@;
        let count: usize = self.names.len();
        if self.full || self.processed >= self.limits.scan_limit || self.processed >= count {
            return GcStep::Finished;
        }
        if expired {
            return GcStep::Finished;
        }
        let file: usize = if self.processed < count - self.start {
            self.start + self.processed
        } else {
            self.processed - (count - self.start)
        };
        assert(self.names@[file as int].0 == run.names[run.next_file()]);
        let base = file_name(self.names.key(file).bytes.as_slice());
        self.processed = self.processed + 1;
        self.pending = None;
        self.condemned = None;
        let name = match base {
            Some(name) => name,
            None => {
                assert(self@ =~= run.looked());
                return GcStep::Skip;
            },
        };
        let text = match core::str::from_utf8(name.as_slice()) {
            Ok(text) => text,
            Err(_) => {
                assert(self@ =~= run.looked());
                return GcStep::Skip;
            },
        };
        self.last_seen = Some(text.to_owned());
        match extract_numeric_pid(text) {
            None => {
                assert(self@ =~= run.looked());
                GcStep::Skip
            },
            Some(pid) => {
                self.pending = Some(Probed { file, pid });
                assert(self@ =~= run.looked());
                GcStep::Probe { pid, file }
            },
        }
    }

    /// Whether the file that the last step came to is to be removed: its process is
    /// gone, and the file was last changed longer ago than it is left alone. A time
    /// that is not known keeps the file.
    pub fn should_delete(&mut self, alive: bool, mtime: Option<u64>, now: Option<u64>) -> (r: bool)
        requires
            old(self).wf(),
            old(self)@.pending is Some,
        ensures
            final(self).wf(),
            r == (mtime is Some && now is Some && may_go(
                Verdict { alive, mtime: mtime.unwrap(), now: now.unwrap() },
                old(self)@.limits,
            )),
            final(self)@ == (GcView {
                condemned: if r {
                    Some(Verdict { alive, mtime: mtime.unwrap(), now: now.unwrap() })
                } else {
                    None
                },
                ..old(self)@
            }),
    {
        self.condemned = None;
        if alive {
            return false;
        }
        match (mtime, now) {
            (Some(mtime), Some(now)) => {
                let old: bool = now.saturating_sub(mtime) >= self.limits.dead_grace_sec;
                if old {
                    self.condemned = Some(Verdict { alive, mtime, now });
                }
                old
            },
            _ => false,
        }
    }

    /// Takes note that the file which was to be removed is gone.
    pub fn record_removal(&mut self)
        requires
            old(self).wf(),
            old(self)@.condemned is Some,
        ensures
            final(self).wf(),
            final(self)@ == (GcView {
                deleted: old(self)@.deleted + 1,
                full: old(self)@.deleted + 1 >= old(self)@.limits.delete_limit,
                pending: None,
                condemned: None,
                removed: old(self)@.removed.push(
                    Removal {
                        visit: old(self)@.processed - 1,
                        probed: old(self)@.pending.unwrap(),
                        verdict: old(self)@.condemned.unwrap(),
                    },
                ),
                ..old(self)@
            }),
    {
        let ghost run = self@;
        let ghost removal = Removal {
            visit: run.processed - 1,
            probed: run.pending.unwrap(),
            verdict: run.condemned.unwrap(),
        };
        self.deleted = self.deleted + 1;
        if self.deleted >= self.limits.delete_limit {
            self.full = true;
        }
        self.pending = None;
        self.condemned = None;
        self.removed = Ghost(run.removed.push(removal));
        assert(self@ =~= (GcView {
            deleted: run.deleted + 1,
            full: run.deleted + 1 >= run.limits.delete_limit,
            pending: None,
            condemned: None,
            removed: run.removed.push(removal),
            ..run
        }));
        proof {
            assert forall|i: int| 0 <= i < self@.removed.len() implies self@.came_to(
                (#[trigger] self@.removed[i]).visit,
                self@.removed[i].probed,
            ) && may_go(self@.removed[i].verdict, self@.limits) by {
                if i < run.removed.len() {
                    assert(self@.removed[i] == run.removed[i]);
                    assert(run.came_to(run.removed[i].visit, run.removed[i].probed));
                }
            }
        }
    }

    /// What is to be written down for the next run, if this one came to a file.
    pub fn cursor_text(&self) -> (r: Option<String>)
        ensures
            match self@.last_seen {
                None => r is None,
                Some(name) => r is Some && r.unwrap()@ == name.push('\n'),
            },
    {
        match &self.last_seen {
            None => None,
            Some(name) => {
                let mut out: String = name.clone();
                out.push('\n');
                Some(out)
            },
        }
    }
}

/// A run comes to no file twice, and to every file if it is let.
pub proof fn law_each_file_once(start: int, count: int, a: int, b: int)
    requires
        0 <= start < count,
        0 <= a < count,
        0 <= b < count,
    ensures
        0 <= round(start, a, count) < count,
        round(start, a, count) == round(start, b, count) ==> a == b,
        exists|n: int| 0 <= n < count && #[trigger] round(start, n, count) == a,
{
    let n = if a >= start {
        a - start
    } else {
        a - start + count
    };
    assert(round(start, n, count) == a);
}

/// Only files are removed that are named by the number of a process, whose process
/// was answered to be gone, and that were last changed longer ago than they are left
/// alone; each once, and no more of them than the run may look at.
pub proof fn law_removals(run: GcView, i: int, j: int)
    requires
        run.wf(),
        0 <= i < run.removed.len(),
        0 <= j < run.removed.len(),
    ensures
        ({
            let removal = run.removed[i];
            let name = run.names[removal.probed.file as int];
            &&& removal.probed.file < run.names.len()
            &&& named_pid(name) == Some(removal.probed.pid)
            &&& removal.probed.pid > 0
            &&& !removal.verdict.alive
            &&& removal.verdict.now - removal.verdict.mtime >= run.limits.dead_grace_sec
                || run.limits.dead_grace_sec == 0
        }),
        run.removed[i].probed.file == run.removed[j].probed.file ==> i == j,
        run.removed.len() <= run.limits.scan_limit,
        run.removed.len() <= 1 || run.removed.len() <= run.limits.delete_limit,
{
    let a = run.removed[i];
    let b = run.removed[j];
    assert(run.came_to(a.visit, a.probed) && run.came_to(b.visit, b.probed));
    law_each_file_once(run.start, run.names.len() as int, a.visit, b.visit);
    if i < j {
        assert(run.removed[i].visit < run.removed[j].visit);
    } else if j < i {
        assert(run.removed[j].visit < run.removed[i].visit);
    }
}

/// What a run writes down is read back by the next: the line it leaves, with its end
/// trimmed, is the name it came to, and that name leads to that file alone.
pub proof fn law_cursor_read_back(dir: Seq<u8>, name: Seq<char>, other: Seq<u8>)
    requires
        name.len() > 0,
        !is_space(name[0]),
        !is_space(name.last()),
        is_plain(encode_utf8(name)),
        is_plain(other),
    ensures
        trimmed(name.push('\n')) == name,
        path_view(joined_path(dir, other)) == path_view(joined_path(dir, encode_utf8(name)))
            <==> other == encode_utf8(name),
{
    reveal_with_fuel(trimmed, 2);
    assert(name.push('\n').drop_last() =~= name);
    law_plain_names(dir, other, encode_utf8(name));
}

/// A run that starts after the last file of another goes on where that one
/// stopped.
pub proof fn law_runs_go_on(start: int, processed: int, count: int)
    requires
        0 <= start < count,
        0 < processed <= count,
    ensures
        after(round(start, processed - 1, count), count) == round(
            start,
            if processed < count {
                processed
            } else {
                0
            },
            count,
        ),
{
}

proof fn lemma_decimal(n: nat)
    ensures
        is_number(decimal(n)),
        digits_value(decimal(n)) == n,
    decreases n,
{
    let digit = digit_char((n % 10) as int);
    assert(is_digit(digit) && digit as int - '0' as int == n % 10);
    if n < 10 {
        assert(decimal(n).drop_last() =~= Seq::<char>::empty());
        assert(digits_value(decimal(n).drop_last()) == 0);
    } else {
        lemma_decimal(n / 10);
        assert(decimal(n).drop_last() =~= decimal(n / 10));
    }
}

/// The name that a process gives to a metric file is read back as the number of
/// that process.
pub proof fn law_own_file_is_recognized(prefix: Seq<char>, pid: nat, number: nat)
    requires
        prefix == "counter"@ || prefix == "histogram"@ || prefix == "summary"@,
        0 < pid <= i32::MAX,
    ensures
        numeric_pid(
            prefix.push('_') + decimal(pid).push('-') + decimal(number) + seq!['.', 'd', 'b'],
        ) == Some(pid as i32),
{
    let part = decimal(pid).push('-') + decimal(number);
    let name = prefix.push('_') + decimal(pid).push('-') + decimal(number) + seq!['.', 'd', 'b'];
    let stem = prefix.push('_') + part;
    lemma_decimal(pid);
    lemma_decimal(number);
    assert(name.take(name.len() - 3) =~= stem);
    assert(!prefix.contains('_')) by {
        reveal_strlit("counter");
        reveal_strlit("histogram");
        reveal_strlit("summary");
    }
    assert(!part.contains('_')) by {
        assert forall|i: int| 0 <= i < part.len() implies part[i] != '_' by {
            if i < decimal(pid).len() {
                assert(is_digit(decimal(pid)[i]));
            } else if i > decimal(pid).len() {
                assert(is_digit(decimal(number)[i - decimal(pid).len() - 1]));
            }
        }
    }
    lemma_split_whole(prefix, '_');
    lemma_split_part(prefix, part, '_');
    let parts = split_on(stem, '_');
    assert(parts =~= seq![prefix, part]);
    assert(prefix != "gauge"@) by {
        reveal_strlit("counter");
        reveal_strlit("gauge");
        reveal_strlit("histogram");
        reveal_strlit("summary");
    }
    assert(join_from(parts, 1, '_') == part);
    law_strip_number(decimal(pid), decimal(number));
}

/// The name that a process gives to a file of gauges is read back as the number of that
/// process, whatever the mode.
pub proof fn law_own_gauge_is_recognized(mode: MultiprocessMode, pid: nat, number: nat)
    requires
        0 < pid <= i32::MAX,
    ensures
        ({
            let word = match mode {
                MultiprocessMode::Min => "min"@,
                MultiprocessMode::Max => "max"@,
                MultiprocessMode::Livesum => "livesum"@,
                MultiprocessMode::All => "all"@,
                MultiprocessMode::Liveall => "liveall"@,
            };
            numeric_pid(
                "gauge_"@ + word + seq!['_'] + decimal(pid) + seq!['-'] + decimal(number) + seq![
                    '.',
                    'd',
                    'b',
                ],
            ) == Some(pid as i32)
        }),
{
    let word = match mode {
        MultiprocessMode::Min => "min"@,
        MultiprocessMode::Max => "max"@,
        MultiprocessMode::Livesum => "livesum"@,
        MultiprocessMode::All => "all"@,
        MultiprocessMode::Liveall => "liveall"@,
    };
    reveal_strlit("gauge_");
    reveal_strlit("gauge");
    assert("gauge_"@ =~= "gauge"@.push('_'));
    assert(!word.contains('_')) by {
        reveal_strlit("min");
        reveal_strlit("max");
        reveal_strlit("livesum");
        reveal_strlit("all");
        reveal_strlit("liveall");
    }
    lemma_gauge_pid(word, pid, number);
    let name = "gauge_"@ + word + seq!['_'] + decimal(pid) + seq!['-'] + decimal(number) + seq![
        '.',
        'd',
        'b',
    ];
    assert(name =~= ("gauge"@.push('_') + word).push('_') + (decimal(pid).push('-') + decimal(
        number,
    )) + seq!['.', 'd', 'b']);
}

proof fn lemma_gauge_pid(word: Seq<char>, pid: nat, number: nat)
    requires
        0 < pid <= i32::MAX,
        !word.contains('_'),
    ensures
        numeric_pid(
            ("gauge"@.push('_') + word).push('_') + (decimal(pid).push('-') + decimal(number))
                + seq!['.', 'd', 'b'],
        ) == Some(pid as i32),
{
    let part = decimal(pid).push('-') + decimal(number);
    let head = "gauge"@.push('_') + word;
    let stem = head.push('_') + part;
    let name = stem + seq!['.', 'd', 'b'];
    lemma_decimal(pid);
    lemma_decimal(number);
    assert(name.take(name.len() - 3) =~= stem);
    assert(!"gauge"@.contains('_')) by {
        reveal_strlit("gauge");
    }
    assert(!part.contains('_')) by {
        assert forall|i: int| 0 <= i < part.len() implies part[i] != '_' by {
            if i < decimal(pid).len() {
                assert(is_digit(decimal(pid)[i]));
            } else if i > decimal(pid).len() {
                assert(is_digit(decimal(number)[i - decimal(pid).len() - 1]));
            }
        }
    }
    lemma_split_whole("gauge"@, '_');
    lemma_split_part("gauge"@, word, '_');
    lemma_split_part(head, part, '_');
    let parts = split_on(stem, '_');
    assert(parts =~= seq!["gauge"@, word, part]);
    assert(join_from(parts, 2, '_') == part);
    law_strip_number(decimal(pid), decimal(number));
}

/// A text says the number of a process exactly if it is nothing but decimal digits, with
/// zeros before them or not, and the number is from one to 2147483647.
pub proof fn law_pid_number(text: Seq<char>, zeros: nat, n: nat)
    ensures
        pid_number(Seq::new(zeros, |i: int| '0') + decimal(n)) == (if 0 < n <= 2147483647 {
            Some(n as i32)
        } else {
            None
        }),
        text.len() == 0 ==> pid_number(text) is None,
        (exists|i: int| 0 <= i < text.len() && !('0' <= (#[trigger] text[i]) && text[i] <= '9'))
            ==> pid_number(text) is None,
    decreases zeros,
{
    let lead = Seq::new(zeros, |i: int| '0');
    let whole = lead + decimal(n);
    lemma_decimal(n);
    assert(is_number(whole)) by {
        assert forall|i: int| 0 <= i < whole.len() implies is_digit(#[trigger] whole[i]) by {
            if i >= zeros {
                assert(is_digit(decimal(n)[i - zeros]));
            }
        }
    }
    lemma_leading_zeros(zeros, decimal(n));
    if exists|i: int| 0 <= i < text.len() && !('0' <= (#[trigger] text[i]) && text[i] <= '9') {
        let i = choose|i: int|
            0 <= i < text.len() && !('0' <= (#[trigger] text[i]) && text[i] <= '9');
        assert(!is_digit(text[i]));
    }
}

proof fn lemma_leading_zeros(zeros: nat, digits: Seq<char>)
    ensures
        digits_value(Seq::new(zeros, |i: int| '0') + digits) == digits_value(digits),
    decreases digits.len() + zeros,
{
    let lead = Seq::new(zeros, |i: int| '0');
    let whole = lead + digits;
    if digits.len() > 0 {
        lemma_leading_zeros(zeros, digits.drop_last());
        assert(whole.drop_last() =~= lead + digits.drop_last());
    } else if zeros > 0 {
        let fewer = (zeros - 1) as nat;
        lemma_leading_zeros(fewer, digits);
        assert(whole =~= lead);
        assert(lead.drop_last() =~= Seq::new(fewer, |i: int| '0') + digits);
        assert(digits_value(digits) == 0);
    } else {
        assert(whole =~= digits);
    }
}

/// A process is read only from a name that ends in `.db` and starts with the name of a
/// type and an underscore; and what is read is a positive number that the name says behind
/// its first underscore, or for a gauge behind its second.
pub proof fn law_pid_from_name_alone(name: Seq<char>)
    requires
        numeric_pid(name) is Some,
    ensures
        name.len() >= 3,
        name.subrange(name.len() - 3, name.len() as int) == seq!['.', 'd', 'b'],
        numeric_pid(name).unwrap() > 0,
        ({
            let parts = split_on(name.take(name.len() - 3), '_');
            ||| parts.len() >= 3 && parts[0] == "gauge"@ && Some(numeric_pid(name).unwrap())
                == pid_number(strip_number(join_from(parts.skip(2), 0, '_')))
            ||| parts.len() >= 2 && (parts[0] == "counter"@ || parts[0] == "histogram"@ || parts[0]
                == "summary"@) && Some(numeric_pid(name).unwrap()) == pid_number(
                strip_number(join_from(parts.skip(1), 0, '_')),
            )
        }),
{
    let parts = split_on(name.take(name.len() - 3), '_');
    assert(name.subrange(name.len() - 3, name.len() as int) =~= seq!['.', 'd', 'b']);
    if parts.len() >= 2 {
        law_join(parts, Seq::empty(), 1, '_');
    }
    if parts.len() >= 3 {
        law_join(parts, Seq::empty(), 2, '_');
    }
}

/// A file may go exactly if its process is gone and its last change is at least as many
/// seconds ago as files are left alone, where a change that is yet to come counts as now.
pub proof fn law_may_go(verdict: Verdict, limits: GcLimits)
    ensures
        may_go(verdict, limits) <==> !verdict.alive && (if verdict.now >= verdict.mtime {
            verdict.now - verdict.mtime
        } else {
            0
        }) >= limits.dead_grace_sec,
{
}

/// A run comes to the files one by one in the order of their names, round from where it
/// started: the file it comes to after some others has the number that many further on.
pub proof fn law_round(start: int, processed: int, count: int)
    requires
        0 <= start < count,
        0 <= processed <= count,
    ensures
        round(start, processed, count) == (start + processed) % count,
        0 < processed ==> round(start, processed, count) == (round(start, processed - 1, count) + 1)
            % count,
{
    if start + processed < count {
        vstd::arithmetic::div_mod::lemma_small_mod((start + processed) as nat, count as nat);
    } else {
        vstd::arithmetic::div_mod::lemma_mod_sub_multiples_vanish(start + processed, count);
        if start + processed - count < count {
            vstd::arithmetic::div_mod::lemma_small_mod(
                (start + processed - count) as nat,
                count as nat,
            );
        }
    }
    if 0 < processed {
        let last = round(start, processed - 1, count);
        if last + 1 < count {
            vstd::arithmetic::div_mod::lemma_small_mod((last + 1) as nat, count as nat);
        } else {
            vstd::arithmetic::div_mod::lemma_mod_self_0(count);
        }
    }
}

/// A run that nothing stops looks at as many files as it may: all of them, or as many as
/// its limit says if that is fewer. What stops it before is only that it has removed as
/// many files as it may, which is at least one.
pub proof fn law_run_is_over(run: GcView)
    requires
        run.wf(),
    ensures
        run.is_over() && !run.full ==> run.processed == (if run.limits.scan_limit
            < run.names.len() {
            run.limits.scan_limit as int
        } else {
            run.names.len() as int
        }),
        !run.is_over() ==> run.processed < run.limits.scan_limit && run.processed
            < run.names.len(),
        run.full <==> run.removed.len() >= (if run.limits.delete_limit < 1 {
            1
        } else {
            run.limits.delete_limit as int
        }),
        run.full ==> run.is_over(),
{
}

/// A look at the next file takes the run one file further, to the file that follows the
/// last; it asks about the process that the file is named by, if it is named by one, and
/// remembers the name if it is text. Nothing is removed by it.
pub proof fn law_look_at_next(run: GcView)
    requires
        run.wf(),
        !run.is_over(),
    ensures
        ({
            let file = (run.start + run.processed) % run.names.len() as int;
            let name = run.names[file];
            let after = run.looked();
            &&& 0 <= file < run.names.len()
            &&& after.processed == run.processed + 1
            &&& after.removed == run.removed && after.deleted == run.deleted
            &&& after.names == run.names && after.start == run.start
            &&& after.limits == run.limits && after.full == run.full
            &&& after.condemned is None
            &&& named_pid(name) matches Some(pid) ==> after.pending == Some(
                Probed { file: file as usize, pid },
            )
            &&& named_pid(name) is None ==> after.pending is None
            &&& valid_utf8(name) && is_plain(name) && name != seq![0x2eu8, 0x2eu8]
                ==> after.last_seen == Some(decode_utf8(name)) && named_pid(name) == numeric_pid(
                decode_utf8(name),
            )
            &&& !valid_utf8(name) && is_plain(name) && name != seq![0x2eu8, 0x2eu8]
                ==> after.last_seen == run.last_seen && named_pid(name) is None
        }),
{
    law_round(run.start, run.processed, run.names.len() as int);
    law_each_file_once(run.start, run.names.len() as int, run.processed, run.processed);
    let name = run.names[run.next_file()];
    if is_plain(name) && name != seq![0x2eu8, 0x2eu8] {
        law_plain_names(Seq::empty(), name, name);
    }
}

/// A run starts at its first file if no cursor was left or the cursor names none of its
/// files; else it starts with the file that follows the one which the cursor names, and
/// with the first if that was the last.
pub proof fn law_start(names: Seq<Seq<u8>>, dir: Seq<u8>, cursor: Seq<char>, k: int)
    requires
        forall|i: int| 0 <= i < names.len() ==> is_plain(#[trigger] names[i]),
        forall|i: int, j: int|
            0 <= i < j < names.len() ==> #[trigger] names[i] != #[trigger] names[j],
    ensures
        start_of(names, dir, Seq::empty()) == 0,
        0 <= k < names.len() && cursor.len() > 0 && names[k] == encode_utf8(cursor) ==> start_of(
            names,
            dir,
            cursor,
        ) == (if k + 1 == names.len() {
            0
        } else {
            k + 1
        }),
        is_plain(encode_utf8(cursor)) && (forall|i: int|
            0 <= i < names.len() ==> #[trigger] names[i] != encode_utf8(cursor)) ==> start_of(
            names,
            dir,
            cursor,
        ) == 0,
{
    let target = encode_utf8(cursor);
    if 0 <= k < names.len() && cursor.len() > 0 && names[k] == target {
        assert forall|i: int| 0 <= i < k implies !leads_to(names, dir, target, i) by {
            assert(names[i] != names[k]);
            law_plain_names(dir, names[i], target);
        }
        assert(leads_to(names, dir, target, k));
        lemma_first_place(names, dir, target, k, 0);
    }
    if is_plain(target) && (forall|i: int|
        0 <= i < names.len() ==> #[trigger] names[i] != target) {
        assert forall|i: int| 0 <= i < names.len() implies !leads_to(names, dir, target, i) by {
            law_plain_names(dir, names[i], target);
        }
        lemma_first_place(names, dir, target, names.len() as int, 0);
    }
}

/// A run goes over the names of exactly those entries of a listing that are regular files
/// and metric files.
pub proof fn law_metric_names(listing: Seq<DirEntry>, n: int, name: Seq<u8>)
    requires
        0 <= n <= listing.len(),
    ensures
        metric_names(listing, n).contains(name) <==> exists|i: int|
            0 <= i < n && is_metric_entry(#[trigger] listing[i]) && listing[i].name@ == name,
    decreases n,
{
    if n > 0 {
        law_metric_names(listing, n - 1, name);
        if metric_names(listing, n - 1).contains(name) {
            let i = choose|i: int|
                0 <= i < n - 1 && is_metric_entry(#[trigger] listing[i]) && listing[i].name@
                    == name;
            assert(is_metric_entry(listing[i]));
        }
        if is_metric_entry(listing[n - 1]) && listing[n - 1].name@ == name {
            assert(is_metric_entry(listing[n - 1]));
        }
    }
}

/// A count that is asked for counts as it is, and as one if it is less than that.
pub proof fn law_at_least_one(n: i64)
    ensures
        n >= 1 ==> at_least_one(n) == n,
        n < 1 ==> at_least_one(n) == 1,
{
}

/// A process counts as gone exactly if it cannot be signalled, for any reason but that this
/// is not permitted.
pub proof fn law_pid_alive(rc: i32, not_permitted: bool, r: bool)
    requires
        call_ensures(is_pid_alive, (rc, not_permitted), r),
    ensures
        !r <==> rc != 0 && !not_permitted,
{
}

/// A lock is taken exactly if the call says so. One that is not is busy if the reason is
/// that it would have to wait, by either of its numbers, and has failed for any other.
pub proof fn law_lock_outcome(rc: i32, code: i32, would_block: i32, again: i32, r: LockOutcome)
    requires
        call_ensures(lock_outcome, (rc, code, would_block, again), r),
    ensures
        r is Locked <==> rc == 0,
        r is Busy <==> rc != 0 && (code == would_block || code == again),
        r is Failed <==> rc != 0 && code != would_block && code != again,
{
}

/// What is asked of a run is what it is limited to, but it may always look at one file,
/// remove one and take one millisecond, and files are never left alone for less than no
/// time.
pub proof fn law_limits(
    budget_ms: i64,
    scan_limit: i64,
    delete_limit: i64,
    dead_grace_sec: i64,
    r: GcLimits,
    time: u64,
)
    requires
        call_ensures(
            GcLimits::from_request,
            (budget_ms, scan_limit, delete_limit, dead_grace_sec),
            r,
        ),
        call_ensures(GcLimits::time_ms, (&r,), time),
        scan_limit <= usize::MAX,
        delete_limit <= usize::MAX,
    ensures
        budget_ms >= 1 ==> time == budget_ms,
        budget_ms < 1 ==> time == 1,
        scan_limit >= 1 ==> r.scan_limit == scan_limit,
        scan_limit < 1 ==> r.scan_limit == 1,
        delete_limit >= 1 ==> r.delete_limit == delete_limit,
        delete_limit < 1 ==> r.delete_limit == 1,
        dead_grace_sec >= 0 ==> r.dead_grace_sec == dead_grace_sec,
        dead_grace_sec < 0 ==> r.dead_grace_sec == 0,
{
}

/// What a run writes down is the name it came to last, on a line of its own, if it came to
/// one.
pub proof fn law_cursor_text(run: GcRun, r: Option<String>)
    requires
        call_ensures(GcRun::cursor_text, (&run,), r),
    ensures
        r is Some <==> run@.last_seen is Some,
        r is Some ==> r.unwrap()@ == run@.last_seen.unwrap() + seq!['\n'],
{
    if r is Some {
        assert(r.unwrap()@ =~= run@.last_seen.unwrap() + seq!['\n']);
    }
}

} // verus!
