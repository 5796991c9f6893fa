use game_info_server::access::{
    count_visit, geo_record, ip_to_dir, is_valid_uuid, next_times, times_count_has_room,
    unix_now_str, visit_target,
};
use game_info_server::cache::geoip::GeoInfo;
use game_info_server::stats::PendingStats;

#[test]
fn uuid_accepts_both_cases() {
    assert!(is_valid_uuid("123e4567-e89b-42d3-a456-426614174000"));
    assert!(is_valid_uuid("ABCDEF01-2345-6789-ABCD-EF0123456789"));
}

#[test]
fn uuid_rejects_bad_shapes() {
    assert!(!is_valid_uuid(""));
    assert!(!is_valid_uuid("123e4567-e89b-42d3-a456-42661417400"));
    assert!(!is_valid_uuid("123e4567e-89b-42d3-a456-426614174000"));
    assert!(!is_valid_uuid("123e4567-e89b-42d3-a456-42661417400g"));
    assert!(!is_valid_uuid("123e4567-e89b-42d3-a456-4266141740é"));
    assert!(!is_valid_uuid("../../../../../../../../../../../etc"));
}

#[test]
fn ip_to_dir_replaces_colons() {
    assert_eq!(ip_to_dir("::1"), "__1");
    assert_eq!(ip_to_dir("2001:db8::7"), "2001_db8__7");
    assert_eq!(ip_to_dir("1.2.3.4"), "1.2.3.4");
}

#[test]
fn visits_are_filed_by_uuid_or_address() {
    let t = visit_target("/data/users", "1.2.3.4", "123e4567-e89b-42d3-a456-426614174000");
    assert!(t.has_uuid);
    assert_eq!(t.dir, "/data/users/123e4567-e89b-42d3-a456-426614174000");
    let t = visit_target("/data/users", "::1", "not-a-uuid");
    assert!(!t.has_uuid);
    assert_eq!(t.dir, "/data/users/public/__1");
    let t = visit_target("/data/users/", "1.2.3.4", "");
    assert_eq!(t.dir, "/data/users/public/1.2.3.4");
}

#[test]
fn first_visit_times() {
    assert_eq!(next_times(None, "1700000000"), "1\n1700000000\n1700000000\n");
}

#[test]
fn later_visit_times() {
    assert_eq!(
        next_times(Some("41\n1700000000\n1700050000\n"), "1700100000"),
        "42\n1700000000\n1700100000\n"
    );
}

#[test]
fn times_with_carriage_returns() {
    assert_eq!(next_times(Some("7\r\n100\r\n200\r\n"), "300"), "8\n100\n300\n");
}

#[test]
fn unreadable_count_restarts() {
    assert_eq!(next_times(Some("abc\n100\n200\n"), "300"), "1\n100\n300\n");
    assert_eq!(next_times(Some(""), "300"), "1\n300\n300\n");
    assert_eq!(next_times(Some("5"), "300"), "6\n300\n300\n");
}

#[test]
fn times_round_trip_law() {
    let first = next_times(None, "100");
    let second = next_times(Some(first.as_str()), "200");
    assert_eq!(second, "2\n100\n200\n");
    let third = next_times(Some(second.as_str()), "300");
    assert_eq!(third, "3\n100\n300\n");
}

#[test]
fn times_count_room() {
    assert!(times_count_has_room(None));
    assert!(times_count_has_room(Some("18446744073709551614\n1\n2\n")));
    assert!(!times_count_has_room(Some("18446744073709551615\n1\n2\n")));
    assert!(times_count_has_room(Some("18446744073709551616\n1\n2\n")));
}

#[test]
fn visit_time_text() {
    assert_eq!(unix_now_str(1700000000), "1700000000");
    assert_eq!(unix_now_str(0), "0");
}

#[test]
fn geo_record_copies_location() {
    let g = GeoInfo::local();
    let r = geo_record("127.0.0.1", &g);
    assert_eq!(r.ip, "127.0.0.1");
    assert_eq!(r.country, "Local");
    assert_eq!(r.country_code, "LOCAL");
    assert_eq!(r.city, "Local Network");
    assert_eq!(r.timezone, "UTC");
    assert_eq!(r.lat_bits, 0);
}

#[test]
fn visits_are_counted() {
    let mut p = PendingStats::new();
    let mut g = GeoInfo::unknown();
    g.country = "China".to_string();
    g.country_code = "CN".to_string();
    count_visit(&mut p, true, Some(&g));
    count_visit(&mut p, false, None);
    assert_eq!(p.users, 1);
    assert_eq!(p.access, 1);
    assert_eq!(p.with_uuid, 1);
    assert_eq!(p.without_uuid, 1);
    assert_eq!(p.regions.len(), 1);
    assert_eq!(p.regions[0].0, "CN");
    assert_eq!(p.regions[0].1.country, "China");
    assert_eq!(p.regions[0].1.count, 1);
}
