#![allow(non_snake_case)]

use parsemath::config::{Config, KeyValueConfigService};

#[test]
fn config_get_value() {
    let config = Config::new(vec![("hello".to_string(), "world".to_string())]);

    assert_eq!(config.get("hello"), Some("world".to_string()));
    assert_eq!(config.get("HELLO"), None);
}

#[test]
fn KeyValueConfigService_write_config() {
    let config = Config::new(vec![("hello".to_string(), "world".to_string())]);
    let service = KeyValueConfigService::new();

    let target = service.write(config);
    assert_eq!(target, "hello=world\n".to_string());
}

#[test]
fn KeyValueConfigService_read_config() {
    let service = KeyValueConfigService::new();
    let readable = format!("{}\n{}", "hello=world", "a=b");
    let config = service.read(&readable);

    assert_eq!(
        config.values,
        vec![
            ("hello".to_string(), "world".to_string()),
            ("a".to_string(), "b".to_string())
        ]
    )
}
