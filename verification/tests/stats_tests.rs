use game_info_server::stats::{
    record_access, record_new_user, unix_now_str, PendingStats, RegionStat, Stats,
};

#[test]
fn access_counts() {
    let mut p = PendingStats::new();
    record_access(&mut p, true);
    record_access(&mut p, false);
    record_access(&mut p, false);
    assert_eq!(p.access, 3);
    assert_eq!(p.with_uuid, 1);
    assert_eq!(p.without_uuid, 2);
    assert_eq!(p.users, 0);
    assert!(p.has_changes());
}

#[test]
fn access_count_wraps() {
    let mut p = PendingStats::new();
    p.access = u64::MAX;
    record_access(&mut p, true);
    assert_eq!(p.access, 0);
}

#[test]
fn new_users_and_regions() {
    let mut p = PendingStats::new();
    record_new_user(&mut p, true, "CN", "China");
    record_new_user(&mut p, false, "CN", "PRC");
    record_new_user(&mut p, false, "US", "United States");
    record_new_user(&mut p, false, "XX", "Unknown");
    record_new_user(&mut p, false, "LOCAL", "Local");
    record_new_user(&mut p, false, "", "");
    assert_eq!(p.users, 6);
    assert_eq!(p.with_uuid, 1);
    assert_eq!(p.without_uuid, 5);
    assert_eq!(p.access, 0);
    assert_eq!(p.regions.len(), 2);
    assert_eq!(p.regions[0].0, "CN");
    assert_eq!(p.regions[0].1.country, "China");
    assert_eq!(p.regions[0].1.count, 2);
    assert_eq!(p.regions[1].0, "US");
    assert_eq!(p.regions[1].1.count, 1);
    assert!(p.can_count_region("CN"));
}

#[test]
fn region_count_room() {
    let mut p = PendingStats::new();
    record_new_user(&mut p, true, "DE", "Germany");
    p.regions[0].1.count = u64::MAX;
    assert!(!p.can_count_region("DE"));
    assert!(p.can_count_region("FR"));
}

#[test]
fn take_leaves_nothing() {
    let mut p = PendingStats::new();
    assert!(!p.has_changes());
    record_new_user(&mut p, true, "CN", "China");
    record_access(&mut p, true);
    let d = p.take();
    assert_eq!(d.access, 1);
    assert_eq!(d.users, 1);
    assert_eq!(d.with_uuid, 2);
    assert_eq!(d.regions.len(), 1);
    assert_eq!(p.access, 0);
    assert_eq!(p.users, 0);
    assert_eq!(p.regions.len(), 0);
    assert!(!p.has_changes());
}

#[test]
fn failed_flush_restores_counts() {
    let mut p = PendingStats::new();
    record_access(&mut p, true);
    record_access(&mut p, false);
    record_new_user(&mut p, false, "CN", "China");
    let d = p.take();
    record_access(&mut p, true);
    p.restore(&d);
    assert_eq!(p.access, 3);
    assert_eq!(p.users, 1);
    assert_eq!(p.with_uuid, 2);
    assert_eq!(p.without_uuid, 2);
    assert_eq!(p.regions.len(), 1);
    assert_eq!(p.regions[0].0, "CN");
    assert_eq!(p.regions[0].1.country, "China");
    assert_eq!(p.regions[0].1.count, 1);
}

#[test]
fn failed_flush_merges_regions_back() {
    let mut p = PendingStats::new();
    record_new_user(&mut p, true, "CN", "China");
    record_new_user(&mut p, true, "CN", "China");
    record_new_user(&mut p, false, "US", "United States");
    let d = p.take();
    record_new_user(&mut p, true, "CN", "PRC");
    record_new_user(&mut p, true, "JP", "Japan");
    assert!(p.can_restore(&d));
    p.restore(&d);
    assert_eq!(p.users, 5);
    assert_eq!(p.regions.len(), 3);
    let cn = p.regions.iter().find(|e| e.0 == "CN").unwrap();
    assert_eq!(cn.1.count, 3);
    assert_eq!(cn.1.country, "PRC");
    let us = p.regions.iter().find(|e| e.0 == "US").unwrap();
    assert_eq!(us.1.count, 1);
    assert_eq!(us.1.country, "United States");
    let jp = p.regions.iter().find(|e| e.0 == "JP").unwrap();
    assert_eq!(jp.1.count, 1);
}

#[test]
fn restore_refuses_region_overflow() {
    let mut p = PendingStats::new();
    record_new_user(&mut p, true, "CN", "China");
    let d = p.take();
    record_new_user(&mut p, true, "CN", "China");
    p.regions[0].1.count = u64::MAX;
    assert!(!p.can_restore(&d));
}

#[test]
fn flush_threshold() {
    let mut p = PendingStats::new();
    assert!(p.flush_due(0));
    assert!(!p.flush_due(2));
    record_access(&mut p, true);
    assert!(!p.flush_due(2));
    record_access(&mut p, true);
    assert!(p.flush_due(2));
}

#[test]
fn merge_adds_counts() {
    let mut s = Stats::new();
    s.total_users = 10;
    s.total_access = 50;
    s.with_uuid = 8;
    s.without_uuid = 2;
    s.regions.push(("CN".to_string(), RegionStat { country: "China".to_string(), count: 6 }));
    let mut p = PendingStats::new();
    record_new_user(&mut p, true, "CN", "PRC");
    record_new_user(&mut p, false, "US", "United States");
    record_access(&mut p, true);
    assert!(s.can_merge(&p));
    s.merge(&p, 1700000000);
    assert_eq!(s.total_users, 12);
    assert_eq!(s.total_access, 51);
    assert_eq!(s.with_uuid, 10);
    assert_eq!(s.without_uuid, 3);
    assert_eq!(s.regions.len(), 2);
    assert_eq!(s.regions[0].1.country, "China");
    assert_eq!(s.regions[0].1.count, 7);
    assert_eq!(s.regions[1].0, "US");
    assert_eq!(s.regions[1].1.count, 1);
    assert_eq!(s.last_updated, "unix:1700000000");
}

#[test]
fn merge_overflow_is_detected() {
    let mut s = Stats::new();
    s.total_access = u64::MAX;
    let mut p = PendingStats::new();
    assert!(s.can_merge(&p));
    record_access(&mut p, true);
    assert!(!s.can_merge(&p));
    let mut s = Stats::new();
    s.regions.push(("CN".to_string(), RegionStat { country: "China".to_string(), count: u64::MAX }));
    let mut p = PendingStats::new();
    record_new_user(&mut p, true, "US", "United States");
    assert!(s.can_merge(&p));
    record_new_user(&mut p, true, "CN", "China");
    assert!(!s.can_merge(&p));
}

#[test]
fn stamp() {
    assert_eq!(unix_now_str(1700000000), "unix:1700000000");
    assert_eq!(unix_now_str(0), "unix:0");
}
