use prometheus_client_php_mmap::file_name::FileName;
use prometheus_client_php_mmap::key_table::{KeyTable, TableKey};
use prometheus_client_php_mmap::merge::EntryKey;
use prometheus_client_php_mmap::metric_key::StoredMetricKey;
use prometheus_client_php_mmap::native::{
    fill_bytes, read_u32, read_u64, write_bytes, write_u32, write_u64,
};
use prometheus_client_php_mmap::path::{file_name, join_path, path_parts, same_path};
use prometheus_client_php_mmap::text::{
    chars_of, compare_bytes, compare_text, decimal_text, join_text, same_text, split_text, trim_text,
    KeyOrder,
};
use std::path::Path;

fn name(text: &str) -> FileName {
    FileName { bytes: text.as_bytes().to_vec() }
}

#[test]
fn a_table_keeps_its_rows_in_order() {
    let mut table: KeyTable<FileName, usize> = KeyTable::new();
    for (i, key) in ["m", "c", "x", "c", "a"].iter().enumerate() {
        table.insert(name(key), i);
    }
    let rows: Vec<(Vec<u8>, usize)> =
        (0..table.len()).map(|i| (table.key(i).bytes.clone(), *table.value(i))).collect();
    assert_eq!(
        rows,
        vec![(b"a".to_vec(), 4), (b"c".to_vec(), 3), (b"m".to_vec(), 0), (b"x".to_vec(), 2)]
    );
    assert_eq!(table.get(&name("c")), Some(&3));
    assert_eq!(table.get(&name("b")), None);
    assert_eq!(table.place(&name("b")), (1, false));
    assert_eq!(table.place(&name("x")), (3, true));
}

#[test]
fn rows_can_be_changed_and_taken_out() {
    let mut table: KeyTable<FileName, usize> = KeyTable::new();
    table.insert(name("a"), 1);
    table.insert(name("b"), 2);
    table.insert(name("c"), 3);
    *table.value_mut(1) += 40;
    assert_eq!(table.get(&name("b")), Some(&42));
    table.remove(&name("a"));
    table.remove(&name("nothing"));
    assert_eq!(table.len(), 2);
    table.remove_row(1);
    assert_eq!(table.len(), 1);
    assert_eq!(table.key(0).bytes, b"b");
}

#[test]
fn keys_are_ordered_part_by_part() {
    let metric = |f: &str, s: &str, l: &str| StoredMetricKey::new(f, s, l);
    assert_eq!(metric("a", "z", "z").compare(&metric("b", "a", "a")), KeyOrder::Before);
    assert_eq!(metric("a", "z", "a").compare(&metric("a", "y", "z")), KeyOrder::After);
    assert_eq!(metric("a", "a", "1").compare(&metric("a", "a", "2")), KeyOrder::Before);
    assert_eq!(metric("a", "a", "1").compare(&metric("a", "a", "1")), KeyOrder::Same);
    let entry = |pid: Option<&str>| EntryKey {
        metric: metric("a", "a", ""),
        pid: pid.map(|p| p.to_string()),
    };
    assert_eq!(entry(None).compare(&entry(Some(""))), KeyOrder::Before);
    assert_eq!(entry(Some("10")).compare(&entry(Some("9"))), KeyOrder::Before);
    assert_eq!(entry(Some("9")).compare(&entry(None)), KeyOrder::After);
    assert_eq!(entry(None).compare(&entry(None)), KeyOrder::Same);
}

#[test]
fn texts_are_ordered_by_their_bytes() {
    assert_eq!(compare_text("abc", "abd"), KeyOrder::Before);
    assert_eq!(compare_text("abc", "ab"), KeyOrder::After);
    assert_eq!(compare_text("", "a"), KeyOrder::Before);
    assert_eq!(compare_text("é", "z"), KeyOrder::After);
    assert_eq!(compare_text("😀", "\u{ffff}"), KeyOrder::After);
    assert_eq!(compare_text("same", "same"), KeyOrder::Same);
    assert_eq!(compare_bytes(&[1, 255], &[2]), KeyOrder::Before);
    assert!(same_text("a", "a"));
    assert!(!same_text("a", "a "));
}

#[test]
fn texts_are_split_and_joined() {
    assert_eq!(split_text("a__b_", '_'), vec!["a", "", "b", ""]);
    assert_eq!(split_text("", '_'), vec![""]);
    let parts = split_text("gauge_all_worker_1", '_');
    assert_eq!(join_text(&parts, 0, '_'), "gauge_all_worker_1");
    assert_eq!(join_text(&parts, 2, '_'), "worker_1");
    assert_eq!(join_text(&parts, 3, '_'), "1");
    assert_eq!(join_text(&parts, 4, '_'), "");
    assert_eq!(join_text(&parts, 9, '_'), "");
    assert_eq!(chars_of("aé✓"), vec!['a', 'é', '✓']);
}

#[test]
fn numbers_are_written_in_decimal() {
    for n in [0usize, 7, 10, 99, 100, 1070, usize::MAX] {
        assert_eq!(decimal_text(n), n.to_string());
    }
}

#[test]
fn numbers_are_stored_in_native_order() {
    let mut bytes = vec![0u8; 16];
    write_u32(&mut bytes, 1, 0xA1B2C3D4);
    write_u64(&mut bytes, 6, 0x0102030405060708);
    assert_eq!(&bytes[1..5], &0xA1B2C3D4u32.to_ne_bytes());
    assert_eq!(&bytes[6..14], &0x0102030405060708u64.to_ne_bytes());
    assert_eq!(read_u32(&bytes, 1), 0xA1B2C3D4);
    assert_eq!(read_u64(&bytes, 6), 0x0102030405060708);
    write_bytes(&mut bytes, 0, b"xy");
    fill_bytes(&mut bytes, 14, 2, b'z');
    assert_eq!(&bytes[0..2], b"xy");
    assert_eq!(&bytes[14..], b"zz");
}

#[test]
fn texts_are_trimmed() {
    for text in ["", " ", "a", " a ", "\n\ta b\u{a0}\u{2028}", "\u{85}x\u{1680}", "\u{200b}y", "\u{1c}z"] {
        assert_eq!(trim_text(text), text.trim());
    }
    for c in (0..0x11_0000u32).filter_map(char::from_u32) {
        let text = c.to_string();
        assert_eq!(trim_text(&text).is_empty(), c.is_whitespace());
    }
}

#[test]
fn paths_agree_with_those_of_std() {
    let paths = [
        "", ".", "..", "/", "//", "a", "./a", "a/.", "a/./b", "a//b", "a/b/", "/a", "/./a", "//a",
        "../a", "a/..", "./.", "a/../b", "...", ".a", "a.",
    ];
    for a in paths {
        let std_name = Path::new(a).file_name().map(|n| n.to_str().unwrap().as_bytes().to_vec());
        assert_eq!(file_name(a.as_bytes()), std_name);
        assert_eq!(path_parts(a.as_bytes()).rooted, Path::new(a).has_root());
        for b in paths {
            assert_eq!(same_path(a.as_bytes(), b.as_bytes()), Path::new(a) == Path::new(b));
            let joined = Path::new(a).join(b);
            assert_eq!(
                join_path(a.as_bytes(), b.as_bytes()),
                joined.to_str().unwrap().as_bytes().to_vec()
            );
        }
    }
}
