use quickset::config::{AuthLevel, Config, SyncSourceConfig};

#[test]
fn test_default_config() {
    let config = Config {
        host: "0.0.0.0".to_string(),
        port: 8080,
        auth_level: AuthLevel::Off,
        admin_user: "admin".to_string(),
        admin_pass: "admin".to_string(),
        log_level: "info".to_string(),
        max_connections: 1000,
    };

    assert_eq!(config.address(), "0.0.0.0:8080");
}

#[test]
fn test_auth_level_parsing() {
    assert_eq!(AuthLevel::from_str("none"), Some(AuthLevel::Off));
    assert_eq!(AuthLevel::from_str("write"), Some(AuthLevel::Write));
    assert_eq!(AuthLevel::from_str("read"), Some(AuthLevel::Read));
    assert_eq!(AuthLevel::from_str("all"), Some(AuthLevel::All));
    assert_eq!(AuthLevel::from_str("true"), Some(AuthLevel::All));
    assert_eq!(AuthLevel::from_str("false"), Some(AuthLevel::Off));
}

#[test]
fn test_auth_level_permissions() {
    assert!(!AuthLevel::Off.requires_auth_for_read());
    assert!(!AuthLevel::Off.requires_auth_for_write());

    assert!(!AuthLevel::Write.requires_auth_for_read());
    assert!(AuthLevel::Write.requires_auth_for_write());

    assert!(AuthLevel::Read.requires_auth_for_read());
    assert!(AuthLevel::Read.requires_auth_for_write());

    assert!(AuthLevel::All.requires_auth_for_health());
}

#[test]
fn test_sync_config_defaults() {
    let config = SyncSourceConfig {
        enabled: false,
        source_type: "clickhouse".to_string(),
        host: "localhost".to_string(),
        port: 8123,
        user: "default".to_string(),
        password: String::new(),
        database: "default".to_string(),
        interval_secs: 300,
        tables: vec![],
    };

    assert!(!config.enabled);
    assert_eq!(config.source_type, "clickhouse");
    assert_eq!(config.port, 8123);
}

#[test]
fn test_auth_level_parsing_unknown() {
    assert_eq!(AuthLevel::from_str("sometimes"), None);
    assert_eq!(AuthLevel::from_str("WRITES"), Some(AuthLevel::Write));
    assert_eq!(AuthLevel::from_str("Full"), Some(AuthLevel::All));
    assert_eq!(AuthLevel::from_str("0"), Some(AuthLevel::Off));
    assert_eq!(AuthLevel::from_str("1"), Some(AuthLevel::All));
}

#[test]
fn test_address_formats_port_digits() {
    let config = Config {
        host: "example".to_string(),
        port: 65535,
        auth_level: AuthLevel::Off,
        admin_user: "a".to_string(),
        admin_pass: "a".to_string(),
        log_level: "info".to_string(),
        max_connections: 1,
    };
    assert_eq!(config.address(), "example:65535");
    assert!(config.auth_enabled() == false);
}
