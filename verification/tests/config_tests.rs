use rusty_mqtt::config::{default_host, default_port};
use rusty_mqtt::{BrokerConfig, ConfigError};

#[test]
fn defaults_without_a_file() {
    let config = BrokerConfig::from_parsed(None).unwrap();
    assert_eq!(config.host, "127.0.0.1");
    assert_eq!(config.port, 1884);
    let d = BrokerConfig::default();
    assert_eq!(d.host, default_host());
    assert_eq!(d.port, default_port());
}

#[test]
fn parsed_config_overrides_defaults() {
    let parsed = BrokerConfig { host: "0.0.0.0".to_string(), port: 9999 };
    let config = BrokerConfig::from_parsed(Some(Ok(parsed))).unwrap();
    assert_eq!(config.host, "0.0.0.0");
    assert_eq!(config.port, 9999);
}

#[test]
fn parser_message_becomes_parse_error() {
    let result = BrokerConfig::from_parsed(Some(Err("expected `=`".to_string())));
    match result {
        Err(ConfigError::ParseError(msg)) => assert_eq!(msg, "expected `=`"),
        _ => panic!("expected ParseError"),
    }
}

#[test]
fn port_zero_is_a_validation_error() {
    let parsed = BrokerConfig { host: "127.0.0.1".to_string(), port: 0 };
    match BrokerConfig::from_parsed(Some(Ok(parsed))) {
        Err(ConfigError::ValidationError(msg)) => assert_eq!(msg, "Port darf nicht 0 sein"),
        _ => panic!("expected ValidationError"),
    }
    assert!(BrokerConfig { host: String::new(), port: 1 }.validate().is_ok());
}

#[test]
fn address_joins_host_and_port() {
    assert_eq!(BrokerConfig { host: "127.0.0.1".to_string(), port: 1884 }.address(), "127.0.0.1:1884");
    assert_eq!(BrokerConfig { host: "h".to_string(), port: 1 }.address(), "h:1");
    assert_eq!(BrokerConfig { host: "h".to_string(), port: 65535 }.address(), "h:65535");
    assert_eq!(BrokerConfig { host: "h".to_string(), port: 10 }.address(), "h:10");
}

#[test]
fn error_messages() {
    assert_eq!(
        ConfigError::ParseError("x".to_string()).describe(),
        "Konfigurationsfehler: x"
    );
    assert_eq!(
        ConfigError::ValidationError("y".to_string()).describe(),
        "Validierungsfehler: y"
    );
    let io = ConfigError::IoError(std::io::Error::new(std::io::ErrorKind::NotFound, "gone"));
    assert_eq!(io.describe(), "IO-Fehler: gone");
}
