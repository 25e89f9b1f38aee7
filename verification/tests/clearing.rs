use prometheus_client_php_mmap::file_name::DirEntry;
use prometheus_client_php_mmap::gc::{
    extract_numeric_pid, is_pid_alive, lock_outcome, parse_pid, GcLimits, GcRun, GcStep,
    LockOutcome,
};

fn listing(names: &[&str]) -> Vec<DirEntry> {
    names
        .iter()
        .map(|name| DirEntry {
            name: name.as_bytes().to_vec(),
            shown: name.to_string(),
            is_file: true,
        })
        .collect()
}

fn limits(scan_limit: usize, delete_limit: usize, dead_grace_sec: u64) -> GcLimits {
    GcLimits { budget_ms: 100, scan_limit, delete_limit, dead_grace_sec }
}

/// Runs a clearing over names, where `alive` tells which processes live, and gives
/// back the names that are left, the number removed and the cursor.
fn clear(
    names: &[&str],
    cursor: &str,
    limits: GcLimits,
    alive: fn(i32) -> bool,
    age: u64,
) -> (Vec<String>, usize, Option<String>) {
    let mut left: Vec<String> = names.iter().map(|n| n.to_string()).collect();
    let mut run = GcRun::new(&listing(names), "/m", cursor, limits);
    loop {
        match run.step(false) {
            GcStep::Finished => break,
            GcStep::Skip => {}
            GcStep::Probe { pid, file } => {
                if run.should_delete(alive(pid), Some(1000), Some(1000 + age)) {
                    let name = String::from_utf8(run.name(file).bytes.clone()).unwrap();
                    left.retain(|n| *n != name);
                    run.record_removal();
                }
            }
        }
    }
    (left, run.deleted(), run.cursor_text())
}

fn deletes_dead_numeric_pid_files_only() {
    let alive = format!("counter_{}-0.db", 4242);
    let dead = "counter_2000000000-0.db";
    let non_numeric = "gauge_all_worker_1-0.db";

    let (left, deleted, _) = clear(
        &[&alive, dead, non_numeric],
        "",
        limits(64, 64, 0),
        |pid| pid != 2_000_000_000,
        0,
    );
    assert!(deleted >= 1);
    assert!(left.contains(&alive));
    assert!(!left.contains(&dead.to_string()));
    assert!(left.contains(&non_numeric.to_string()));
}

#[test]
fn aggregate_gc_deletes_dead_numeric_pid_files_only() {
    deletes_dead_numeric_pid_files_only();
}

#[test]
fn gc_gc_deletes_dead_numeric_pid_files_only() {
    deletes_dead_numeric_pid_files_only();
}

#[test]
fn the_cursor_is_the_last_name_seen() {
    let names = ["counter_1-0.db", "counter_2-0.db", "counter_3-0.db"];
    let (left, deleted, cursor) = clear(&names, "", limits(2, 16, 0), |_| true, 0);
    assert_eq!(left.len(), 3);
    assert_eq!(deleted, 0);
    assert_eq!(cursor.unwrap(), "counter_2-0.db\n");
}

#[test]
fn runs_go_round_the_directory() {
    let names = ["counter_3-0.db", "counter_1-0.db", "counter_2-0.db"];
    let (left, _, cursor) = clear(&names, "counter_2-0.db", limits(1, 16, 0), |_| false, 0);
    assert_eq!(left, vec!["counter_1-0.db", "counter_2-0.db"]);
    assert_eq!(cursor.unwrap(), "counter_3-0.db\n");
    let (left, _, cursor) = clear(&names, "counter_3-0.db", limits(2, 16, 0), |_| false, 0);
    assert_eq!(left, vec!["counter_3-0.db"]);
    assert_eq!(cursor.unwrap(), "counter_2-0.db\n");
    let (left, _, _) = clear(&names, "gone.db", limits(1, 16, 0), |_| false, 0);
    assert_eq!(left, vec!["counter_3-0.db", "counter_2-0.db"]);
}

#[test]
fn every_file_is_seen_once() {
    let names = ["counter_1.db", "counter_2.db", "counter_3.db", "counter_4.db"];
    let mut run = GcRun::new(&listing(&names), "/m", "counter_2.db", limits(100, 100, 0));
    let mut seen = Vec::new();
    loop {
        match run.step(false) {
            GcStep::Finished => break,
            GcStep::Skip => panic!("all names are numbered"),
            GcStep::Probe { pid, file } => seen.push((pid, file)),
        }
    }
    assert_eq!(seen, vec![(3, 2), (4, 3), (1, 0), (2, 1)]);
}

#[test]
fn removals_are_bounded() {
    let names = ["counter_1.db", "counter_2.db", "counter_3.db"];
    let (left, deleted, _) = clear(&names, "", limits(64, 2, 0), |_| false, 0);
    assert_eq!(deleted, 2);
    assert_eq!(left, vec!["counter_3.db"]);
    let (_, deleted, _) = clear(&names, "", limits(64, 0, 0), |_| false, 0);
    assert_eq!(deleted, 1);
}

#[test]
fn young_files_are_left_alone() {
    let names = ["counter_1.db"];
    let (left, _, _) = clear(&names, "", limits(64, 16, 600), |_| false, 599);
    assert_eq!(left.len(), 1);
    let (left, _, _) = clear(&names, "", limits(64, 16, 600), |_| false, 600);
    assert_eq!(left.len(), 0);
    let mut run = GcRun::new(&listing(&names), "/m", "", limits(1, 1, 1));
    assert_eq!(run.step(false), GcStep::Probe { pid: 1, file: 0 });
    assert!(!run.should_delete(false, Some(2000), Some(1000)));
    assert!(!run.should_delete(false, None, Some(1000)));
    assert!(!run.should_delete(false, Some(1), None));
    assert!(!run.should_delete(true, Some(1), Some(1000)));
    let mut run = GcRun::new(&listing(&names), "/m", "", limits(1, 1, 0));
    assert_eq!(run.step(false), GcStep::Probe { pid: 1, file: 0 });
    assert!(run.should_delete(false, Some(2000), Some(1000)));
    run.record_removal();
    assert_eq!(run.deleted(), 1);
    assert_eq!(run.step(false), GcStep::Finished);
}

/// The number of the first file that a run comes to.
fn first_file(dir: &str, cursor: &str) -> usize {
    let names = ["counter_1.db", "counter_2.db", "counter_3.db"];
    let mut run = GcRun::new(&listing(&names), dir, cursor, limits(64, 16, 0));
    match run.step(false) {
        GcStep::Probe { file, .. } => file,
        other => panic!("{other:?}"),
    }
}

#[test]
fn the_cursor_is_a_path_from_the_directory() {
    assert_eq!(first_file("/m", "counter_1.db"), 1);
    assert_eq!(first_file("/m", "./counter_1.db"), 1);
    assert_eq!(first_file("/m", "counter_1.db/"), 1);
    assert_eq!(first_file("/m", ".//./counter_1.db/."), 1);
    assert_eq!(first_file("/m", "/m/counter_1.db"), 1);
    assert_eq!(first_file("/m/", "/m//counter_1.db"), 1);
    assert_eq!(first_file("m", "/m/counter_1.db"), 0);
    assert_eq!(first_file(".", "./counter_1.db"), 1);
    assert_eq!(first_file("/m", "x/../counter_1.db"), 0);
    assert_eq!(first_file("/m", "counter_3.db"), 0);
    assert_eq!(first_file("/m", "counter_2.db"), 2);
    assert_eq!(first_file("/m", "."), 0);
}

#[test]
fn white_space_round_the_cursor_does_not_count() {
    assert_eq!(first_file("/m", "counter_1.db\n"), 1);
    assert_eq!(first_file("/m", "\u{3000} counter_1.db\r\n\t"), 1);
    assert_eq!(first_file("/m", " \n"), 0);
    assert_eq!(first_file("/m", ""), 0);
}

#[test]
fn a_run_takes_at_least_a_millisecond() {
    let mut l = limits(1, 1, 1);
    assert_eq!(l.time_ms(), 100);
    l.budget_ms = 0;
    assert_eq!(l.time_ms(), 1);
}

#[test]
fn a_run_stops_when_its_time_is_up() {
    let mut run = GcRun::new(&listing(&["counter_1.db"]), "/m", "", limits(64, 16, 0));
    assert_eq!(run.step(true), GcStep::Finished);
    assert_eq!(run.cursor_text(), None);
    assert_eq!(run.step(false), GcStep::Probe { pid: 1, file: 0 });
    assert_eq!(run.step(false), GcStep::Finished);
}

#[test]
fn a_name_that_is_not_text_is_passed_by() {
    let mut entries = listing(&["counter_1.db"]);
    entries.push(DirEntry {
        name: b"counter_\xFF.db".to_vec(),
        shown: String::new(),
        is_file: true,
    });
    entries.push(DirEntry {
        name: b"counter_9.db".to_vec(),
        shown: String::new(),
        is_file: false,
    });
    let mut run = GcRun::new(&entries, "/m", "counter_1.db", limits(64, 16, 0));
    assert_eq!(run.len(), 2);
    assert_eq!(run.step(false), GcStep::Skip);
    assert_eq!(run.cursor_text(), None);
    assert_eq!(run.step(false), GcStep::Probe { pid: 1, file: 0 });
    assert_eq!(run.cursor_text().unwrap(), "counter_1.db\n");
}

#[test]
fn process_numbers_in_file_names() {
    assert_eq!(extract_numeric_pid("counter_123-0.db"), Some(123));
    assert_eq!(extract_numeric_pid("histogram_7.db"), Some(7));
    assert_eq!(extract_numeric_pid("summary_0042-1.db"), Some(42));
    assert_eq!(extract_numeric_pid("gauge_all_55-3.db"), Some(55));
    assert_eq!(extract_numeric_pid("gauge_55-3.db"), None);
    assert_eq!(extract_numeric_pid("gauge_all_worker_1-0.db"), None);
    assert_eq!(extract_numeric_pid("counter.db"), None);
    assert_eq!(extract_numeric_pid("counter_.db"), None);
    assert_eq!(extract_numeric_pid("counter_0-0.db"), None);
    assert_eq!(extract_numeric_pid("counter_1_2.db"), None);
    assert_eq!(extract_numeric_pid("meter_12.db"), None);
    assert_eq!(extract_numeric_pid("counter_12.dbx"), None);
    assert_eq!(extract_numeric_pid("counter_2147483647.db"), Some(i32::MAX));
    assert_eq!(extract_numeric_pid("counter_2147483648.db"), None);
    assert_eq!(extract_numeric_pid("counter_99999999999999999999999.db"), None);
    assert_eq!(parse_pid("12a"), None);
    assert_eq!(parse_pid("٣"), None);
    assert_eq!(parse_pid("+5"), None);
}

#[test]
fn requests_are_brought_within_bounds() {
    let l = GcLimits::from_request(10, 64, 16, 600);
    assert_eq!(
        l,
        GcLimits { budget_ms: 10, scan_limit: 64, delete_limit: 16, dead_grace_sec: 600 }
    );
    let l = GcLimits::from_request(-5, 0, i64::MIN, -1);
    assert_eq!(
        l,
        GcLimits { budget_ms: 1, scan_limit: 1, delete_limit: 1, dead_grace_sec: 0 }
    );
}

#[test]
fn what_the_system_says_is_understood() {
    assert!(is_pid_alive(0, false));
    assert!(is_pid_alive(-1, true));
    assert!(!is_pid_alive(-1, false));
    assert_eq!(lock_outcome(0, 11, 11, 11), LockOutcome::Locked);
    assert_eq!(lock_outcome(-1, 11, 11, 12), LockOutcome::Busy);
    assert_eq!(lock_outcome(-1, 12, 11, 12), LockOutcome::Busy);
    assert_eq!(lock_outcome(-1, 9, 11, 12), LockOutcome::Failed);
}
