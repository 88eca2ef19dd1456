use agent_hud::config::{Config, ConfigError, DEFAULT_WINDOW_HEIGHT, DEFAULT_WINDOW_WIDTH};
fn from_json(text: &str) -> Result<Config, ConfigError> {
    Config::from_json(text)
}

#[test]
fn defaults_are_explicit_and_stable() {
    assert_eq!(Config::default().window_width, DEFAULT_WINDOW_WIDTH);
    assert_eq!(Config::default().window_height, DEFAULT_WINDOW_HEIGHT);
}

#[test]
fn valid_local_config_overrides_supported_values() {
    let c = from_json(r#"{"window_width":800,"window_height":600,"future":true}"#).unwrap();
    assert_eq!((c.window_width, c.window_height), (800, 600));
}

#[test]
fn malformed_and_invalid_values_are_rejected() {
    assert!(matches!(from_json("not json"), Err(ConfigError::Parse { .. })));
    assert!(from_json(r#"{"window_width":100}"#).is_err());
    assert!(from_json(r#"{"window_height":"720"}"#).is_err());
    assert!(from_json("[]").is_err());
}

#[test]
fn each_refusal_names_its_reason() {
    assert_eq!(from_json("[]"), Err(ConfigError::RootMustBeObject));
    assert_eq!(
        from_json(r#"{"window_width":-5}"#),
        Err(ConfigError::FieldMustBeUnsignedInteger { key: "window_width" })
    );
    assert_eq!(
        from_json(r#"{"window_height":4294967296}"#),
        Err(ConfigError::FieldMustBeUnsignedInteger {
            key: "window_height"
        })
    );
    assert_eq!(
        from_json(r#"{"window_width":100,"window_height":5}"#),
        Err(ConfigError::FieldOutOfRange {
            key: "window_width",
            min: 320,
            max: 3840,
            value: 100
        })
    );
    assert_eq!(
        from_json(r#"{"window_height":5000}"#),
        Err(ConfigError::FieldOutOfRange {
            key: "window_height",
            min: 240,
            max: 2160,
            value: 5000
        })
    );
    assert_eq!(from_json("{}"), Ok(Config::default()));
    assert_eq!(
        from_json(r#"{"window_width":320,"window_height":2160}"#),
        Ok(Config {
            window_width: 320,
            window_height: 2160
        })
    );
}

#[test]
fn config_errors_describe_themselves() {
    assert_eq!(
        ConfigError::FieldOutOfRange {
            key: "window_width",
            min: 320,
            max: 3840,
            value: 100
        }
        .message(),
        "window_width=100 is outside 320..=3840"
    );
    assert_eq!(
        ConfigError::FieldMustBeUnsignedInteger {
            key: "window_height"
        }
        .message(),
        "window_height must be an unsigned integer"
    );
    assert_eq!(
        ConfigError::RootMustBeObject.message(),
        "configuration root must be an object"
    );
}
