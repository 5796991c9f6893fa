use std::sync::Arc;

use game_info_server::cache::geoip::{
    geo_from_reply, geoip_url, ip_cache_path, is_private, GeoApiReply, GeoInfo, GeoIpCache,
};

fn located(code: &str, country: &str) -> GeoInfo {
    let mut g = GeoInfo::unknown();
    g.country = country.to_string();
    g.country_code = code.to_string();
    g.city = "Somewhere".to_string();
    g
}

#[test]
fn private_addresses() {
    for ip in ["unknown", "127.0.0.1", "127.0.0.2", "127.1.2.3", "::1", "192.168.1.1", "10.0.0.1", "172.16.0.1", "fc00::1", "fd12::1"] {
        assert!(is_private(ip), "{}", ip);
    }
    for ip in ["8.8.8.8", "1.2.3.4", "128.0.0.1", "2001:db8::1", "192.169.0.1", ""] {
        assert!(!is_private(ip), "{}", ip);
    }
}

#[test]
fn placeholder_records() {
    let l = GeoInfo::local();
    assert_eq!(l.country, "Local");
    assert_eq!(l.country_code, "LOCAL");
    assert_eq!(l.city, "Local Network");
    assert_eq!(l.timezone, "UTC");
    assert_eq!(f64::from_bits(l.lat_bits), 0.0);
    let u = GeoInfo::unknown();
    assert_eq!(u.country, "Unknown");
    assert_eq!(u.country_code, "XX");
    assert_eq!(u.city, "Unknown");
    assert_eq!(f64::from_bits(u.lon_bits), 0.0);
}

#[test]
fn cache_file_names() {
    assert_eq!(ip_cache_path("/data/cache/geoip", "1.2.3.4"), "/data/cache/geoip/1.2.3.4.json");
    assert_eq!(ip_cache_path("geoip/", "2001:db8::1"), "geoip/2001_db8__1.json");
}

#[test]
fn query_url() {
    assert_eq!(
        geoip_url("8.8.8.8"),
        "http://ip-api.com/json/8.8.8.8?fields=status,country,countryCode,city,lat,lon,timezone"
    );
}

#[test]
fn reply_with_success() {
    let r = GeoApiReply {
        status: Some("success".to_string()),
        country: Some("Germany".to_string()),
        country_code: None,
        city: None,
        lat_bits: Some(52.5f64.to_bits()),
        lon_bits: None,
        timezone: None,
    };
    let g = geo_from_reply(r).ok().unwrap();
    assert_eq!(g.country, "Germany");
    assert_eq!(g.country_code, "XX");
    assert_eq!(g.city, "");
    assert_eq!(f64::from_bits(g.lat_bits), 52.5);
    assert_eq!(f64::from_bits(g.lon_bits), 0.0);
    assert_eq!(g.timezone, "UTC");
}

#[test]
fn reply_without_success() {
    for status in [None, Some("fail".to_string())] {
        let r = GeoApiReply {
            status,
            country: None,
            country_code: None,
            city: None,
            lat_bits: None,
            lon_bits: None,
            timezone: None,
        };
        assert_eq!(geo_from_reply(r).err().unwrap(), "api status not success");
    }
}

#[test]
fn private_lookup_is_local() {
    let mut c = GeoIpCache::new();
    assert!(!c.needs_disk("192.168.0.7"));
    let r = c.get("192.168.0.7", Some(located("US", "United States")));
    assert_eq!(r.geo.country_code, "LOCAL");
    assert!(!r.enqueued);
    assert!(!c.has_pending());
}

#[test]
fn new_address_is_queued_once() {
    let mut c = GeoIpCache::new();
    assert!(c.needs_disk("8.8.8.8"));
    let r = c.get("8.8.8.8", None);
    assert_eq!(r.geo.country_code, "XX");
    assert!(r.enqueued);
    assert!(c.has_pending());
    assert!(!c.needs_disk("8.8.8.8"));
    let r = c.get("8.8.8.8", None);
    assert_eq!(r.geo.country_code, "XX");
    assert!(!r.enqueued);
    assert_eq!(c.dequeue_batch(10), vec!["8.8.8.8".to_string()]);
    assert!(!c.has_pending());
    assert!(!c.get("8.8.8.8", None).enqueued);
}

#[test]
fn completed_address_is_served() {
    let mut c = GeoIpCache::new();
    c.get("1.1.1.1", None);
    let batch = c.dequeue_batch(3);
    assert_eq!(batch, vec!["1.1.1.1".to_string()]);
    c.complete("1.1.1.1".to_string(), Arc::new(located("AU", "Australia")));
    let r = c.get("1.1.1.1", None);
    assert_eq!(r.geo.country, "Australia");
    assert!(!r.enqueued);
    assert!(!c.needs_disk("1.1.1.1"));
}

#[test]
fn failed_address_is_retried() {
    let mut c = GeoIpCache::new();
    c.get("9.9.9.9", None);
    c.dequeue_batch(1);
    c.fail("9.9.9.9");
    assert!(c.needs_disk("9.9.9.9"));
    let r = c.get("9.9.9.9", None);
    assert!(r.enqueued);
    assert_eq!(c.dequeue_batch(5), vec!["9.9.9.9".to_string()]);
}

#[test]
fn disk_cached_address_is_used() {
    let mut c = GeoIpCache::new();
    let r = c.get("5.5.5.5", Some(located("FR", "France")));
    assert_eq!(r.geo.country, "France");
    assert!(!r.enqueued);
    assert!(!c.has_pending());
    assert_eq!(c.get("5.5.5.5", None).geo.country, "France");
}

#[test]
fn batches_respect_the_limit_and_order() {
    let mut c = GeoIpCache::new();
    for ip in ["1.0.0.1", "1.0.0.2", "1.0.0.3"] {
        c.get(ip, None);
    }
    assert_eq!(c.dequeue_batch(2), vec!["1.0.0.1".to_string(), "1.0.0.2".to_string()]);
    assert!(c.has_pending());
    assert_eq!(c.dequeue_batch(0), Vec::<String>::new());
    assert_eq!(c.dequeue_batch(2), vec!["1.0.0.3".to_string()]);
    assert!(!c.has_pending());
}

#[test]
fn stale_queue_entries_are_skipped() {
    let mut c = GeoIpCache::new();
    c.get("2.2.2.2", None);
    c.fail("2.2.2.2");
    c.get("2.2.2.2", None);
    let batch = c.dequeue_batch(5);
    assert_eq!(batch, vec!["2.2.2.2".to_string()]);
    assert!(!c.has_pending());
}

#[test]
fn queue_never_holds_an_address_twice() {
    let mut c = GeoIpCache::new();
    assert!(c.get("1.1.1.1", None).enqueued);
    assert!(c.get("2.2.2.2", None).enqueued);
    assert_eq!(c.dequeue_batch(1), vec!["1.1.1.1".to_string()]);
    assert!(!c.get("1.1.1.1", None).enqueued);
    c.fail("1.1.1.1");
    assert!(c.get("1.1.1.1", None).enqueued);
    assert!(!c.get("2.2.2.2", None).enqueued);
    assert!(!c.get("1.1.1.1", None).enqueued);
    assert_eq!(c.dequeue_batch(10), vec!["2.2.2.2".to_string(), "1.1.1.1".to_string()]);
    assert!(!c.has_pending());
}
