use game_info_server::config::{env_u32, env_usize, Config, EnvVars};

fn vars(d: Option<&str>, f: Option<&str>, b: Option<&str>, g: Option<&str>) -> EnvVars {
    EnvVars {
        data_dir: d.map(|s| s.to_string()),
        flush_interval: f.map(|s| s.to_string()),
        bind_addr: b.map(|s| s.to_string()),
        geoip_workers: g.map(|s| s.to_string()),
    }
}

#[test]
fn defaults() {
    let c = Config::from_env(&vars(None, None, None, None));
    assert_eq!(c.data_dir, "../data");
    assert_eq!(c.images_dir, "../data/images");
    assert_eq!(c.users_dir, "../data/users");
    assert_eq!(c.cache_dir, "../data/cache");
    assert_eq!(c.stats_file, "../data/cache/stats.json");
    assert_eq!(c.version_cache_dir, "../data/cache/versions");
    assert_eq!(c.geoip_cache_dir, "../data/cache/geoip");
    assert_eq!(c.flush_interval, 10);
    assert_eq!(c.bind_addr, "0.0.0.0:3000");
    assert_eq!(c.geoip_workers, 3);
}

#[test]
fn explicit_values() {
    let c = Config::from_env(&vars(Some("/data/"), Some("25"), Some("127.0.0.1:8080"), Some("8")));
    assert_eq!(c.data_dir, "/data/");
    assert_eq!(c.images_dir, "/data/images");
    assert_eq!(c.stats_file, "/data/cache/stats.json");
    assert_eq!(c.flush_interval, 25);
    assert_eq!(c.bind_addr, "127.0.0.1:8080");
    assert_eq!(c.geoip_workers, 8);
}

#[test]
fn unparsable_numbers_use_defaults() {
    let c = Config::from_env(&vars(None, Some("ten"), None, Some("-1")));
    assert_eq!(c.flush_interval, 10);
    assert_eq!(c.geoip_workers, 3);
    assert_eq!(env_u32(Some("4294967296"), 7), 7);
    assert_eq!(env_u32(Some("+4"), 7), 4);
    assert_eq!(env_u32(None, 7), 7);
    assert_eq!(env_usize(Some("12"), 3), 12);
    assert_eq!(env_usize(Some(""), 3), 3);
}

#[test]
fn empty_data_dir() {
    let c = Config::from_env(&vars(Some(""), None, None, None));
    assert_eq!(c.images_dir, "images");
    assert_eq!(c.stats_file, "cache/stats.json");
}
