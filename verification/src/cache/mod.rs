//! The caches of the service: GeoIP locations and game versions.

pub mod geoip;
pub mod version;
