use std::cmp::Ordering;

use game_info_server::cache::version::{
    data_file_path, fresh_disk_entry, game_dir, scan_latest, version_cache_path, version_cmp,
    version_parts, pick_latest, LoadAction, LoadEvent, VersionCache, VersionDir, VersionEntry,
};
use game_info_server::handlers::str_val;

fn dir(name: &str, json: &str) -> VersionDir {
    VersionDir { name: name.to_string(), data_json: json.as_bytes().to_vec() }
}

fn entry(name: &str, mtime: u64) -> VersionEntry {
    VersionEntry {
        version_name: name.to_string(),
        data: serde_json::from_slice(b"{\"game_name\":\"g\"}").unwrap(),
        dir_mtime: mtime,
    }
}

#[test]
fn components_compare_numerically() {
    assert_eq!(version_cmp("1.2", "1.10"), Ordering::Less);
    assert_eq!(version_cmp("1.10", "1.2"), Ordering::Greater);
    assert_eq!(version_cmp("2", "1.9.9"), Ordering::Greater);
    assert_eq!(version_cmp("1.0", "1.0"), Ordering::Equal);
}

#[test]
fn longer_version_is_greater() {
    assert_eq!(version_cmp("1.0", "1.0.0"), Ordering::Less);
    assert_eq!(version_cmp("1.0.0", "1.0"), Ordering::Greater);
}

#[test]
fn unreadable_components_count_as_zero() {
    assert_eq!(version_cmp("a", "0"), Ordering::Equal);
    assert_eq!(version_cmp("1.b", "1.0"), Ordering::Equal);
    assert_eq!(version_cmp("01", "1"), Ordering::Equal);
    assert_eq!(version_cmp("1.99999999999", "1.0"), Ordering::Equal);
    assert_eq!(version_cmp("", "0"), Ordering::Equal);
}

#[test]
fn version_order_laws() {
    let names = ["1", "1.0", "1.2", "1.10", "2", "a", "", "0.9.9", "1..2"];
    for a in names {
        assert_eq!(version_cmp(a, a), Ordering::Equal);
        for b in names {
            assert_eq!(version_cmp(a, b), version_cmp(b, a).reverse());
            for c in names {
                if version_cmp(a, b) != Ordering::Less && version_cmp(b, c) != Ordering::Less {
                    assert_ne!(version_cmp(a, c), Ordering::Less);
                }
            }
        }
    }
}

#[test]
fn version_components() {
    assert_eq!(version_parts("1.2.3"), vec![1, 2, 3]);
    assert_eq!(version_parts(""), vec![0]);
    assert_eq!(version_parts("1..x"), vec![1, 0, 0]);
    assert_eq!(version_parts("4.+5"), vec![4, 5]);
}

#[test]
fn newest_parsable_version_wins() {
    let dirs = vec![
        dir("1.2", "{\"game_name\":\"old\"}"),
        dir("1.10", "{\"game_name\":\"new\"}"),
        dir("2.0", "not json"),
        dir("1.9", "{\"game_name\":\"mid\"}"),
    ];
    let e = scan_latest(&dirs, 77).unwrap();
    assert_eq!(e.version_name, "1.10");
    assert_eq!(e.dir_mtime, 77);
    assert_eq!(str_val(&e.data, "game_name"), "new");
}

#[test]
fn no_parsable_version() {
    assert!(scan_latest(&vec![], 1).is_none());
    assert!(scan_latest(&vec![dir("1", "{"), dir("2", "")], 1).is_none());
}

#[test]
fn disk_entry_freshness() {
    assert!(fresh_disk_entry(Some(entry("1", 10)), 10).is_some());
    assert!(fresh_disk_entry(Some(entry("1", 11)), 10).is_some());
    assert!(fresh_disk_entry(Some(entry("1", 9)), 10).is_none());
    assert!(fresh_disk_entry(None, 0).is_none());
}

#[test]
fn memory_cache_serves_fresh_entries() {
    let mut c = VersionCache::new();
    assert!(c.cached(5, 0).is_none());
    let stored = c.store(5, entry("1.0", 100));
    assert_eq!(stored.version_name, "1.0");
    assert_eq!(c.cached(5, 100).unwrap().version_name, "1.0");
    assert_eq!(c.cached(5, 50).unwrap().dir_mtime, 100);
    assert!(c.cached(5, 101).is_none());
    assert!(c.cached(6, 0).is_none());
    c.store(5, entry("2.0", 200));
    assert_eq!(c.cached(5, 150).unwrap().version_name, "2.0");
}

#[test]
fn game_paths() {
    assert_eq!(game_dir("../data/images", 10), "../data/images/10");
    assert_eq!(version_cache_path("../data/cache/versions", 10), "../data/cache/versions/10.json");
    assert_eq!(data_file_path("../data/images/10/1.2.3"), "../data/images/10/1.2.3/data.json");
}

#[test]
fn load_from_memory_first() {
    let mut c = VersionCache::new();
    c.store(7, entry("1.0", 100));
    match c.get_or_load(7, 100, LoadEvent::Start) {
        LoadAction::Serve(e) => assert_eq!(e.version_name, "1.0"),
        _ => panic!("expected the memory entry"),
    }
    assert!(matches!(c.get_or_load(7, 101, LoadEvent::Start), LoadAction::ReadDisk));
    assert!(matches!(c.get_or_load(8, 100, LoadEvent::Start), LoadAction::ReadDisk));
}

#[test]
fn load_from_disk_cache_then_memory() {
    let mut c = VersionCache::new();
    assert!(matches!(c.get_or_load(7, 100, LoadEvent::Start), LoadAction::ReadDisk));
    match c.get_or_load(7, 100, LoadEvent::DiskRead(Some(entry("2.0", 150)))) {
        LoadAction::Serve(e) => {
            assert_eq!(e.version_name, "2.0");
            assert_eq!(e.dir_mtime, 150);
        }
        _ => panic!("expected the disk entry"),
    }
    match c.get_or_load(7, 120, LoadEvent::Start) {
        LoadAction::Serve(e) => assert_eq!(e.version_name, "2.0"),
        _ => panic!("expected the stored entry"),
    }
}

#[test]
fn stale_or_missing_disk_cache_leads_to_scan() {
    let mut c = VersionCache::new();
    assert!(matches!(
        c.get_or_load(7, 100, LoadEvent::DiskRead(Some(entry("2.0", 99)))),
        LoadAction::ScanDirs
    ));
    assert!(matches!(c.get_or_load(7, 100, LoadEvent::DiskRead(None)), LoadAction::ScanDirs));
    assert!(c.cached(7, 0).is_none());
}

#[test]
fn scan_result_is_stored_and_written() {
    let mut c = VersionCache::new();
    let dirs = vec![dir("1.2", "{\"v\":1}"), dir("1.10", "{\"v\":2}"), dir("9.0", "oops")];
    match c.get_or_load(7, 100, LoadEvent::DirsScanned(Some(dirs))) {
        LoadAction::ServeAndWrite(e) => {
            assert_eq!(e.version_name, "1.10");
            assert_eq!(e.dir_mtime, 100);
        }
        _ => panic!("expected the scanned entry"),
    }
    match c.cached(7, 100) {
        Some(e) => assert_eq!(e.version_name, "1.10"),
        None => panic!("expected the entry in memory"),
    }
}

#[test]
fn nothing_to_load() {
    let mut c = VersionCache::new();
    assert!(matches!(c.get_or_load(7, 100, LoadEvent::DirsScanned(None)), LoadAction::NotFound));
    assert!(matches!(
        c.get_or_load(7, 100, LoadEvent::DirsScanned(Some(vec![dir("1.0", "not json")]))),
        LoadAction::NotFound
    ));
    assert!(matches!(
        c.get_or_load(7, 100, LoadEvent::DirsScanned(Some(Vec::new()))),
        LoadAction::NotFound
    ));
    assert!(c.cached(7, 0).is_none());
}

#[test]
fn first_of_equal_versions_wins() {
    let dirs = vec![dir("1.0", "{\"v\":1}"), dir("1.00", "{\"v\":2}"), dir("0.9", "{\"v\":3}")];
    let e = scan_latest(&dirs, 5).unwrap();
    assert_eq!(e.version_name, "1.0");
    assert_eq!(e.data, serde_json::from_slice::<serde_json::Value>(b"{\"v\":1}").unwrap());
}

#[test]
fn pick_among_parsed_candidates() {
    let v = |s: &str| serde_json::from_slice::<serde_json::Value>(s.as_bytes()).unwrap();
    assert!(pick_latest(Vec::new(), 1).is_none());
    let c = vec![
        ("2.1".to_string(), v("1")),
        ("2.10".to_string(), v("2")),
        ("2.9".to_string(), v("3")),
        ("2.010".to_string(), v("4")),
    ];
    let e = pick_latest(c, 42).unwrap();
    assert_eq!(e.version_name, "2.10");
    assert_eq!(e.data, v("2"));
    assert_eq!(e.dir_mtime, 42);
}
