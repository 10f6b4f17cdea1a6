use ovos_bus::config::{
    parse_number, same_text, Config, ConfigFile, Environment, RootConfig, WebSocketConfig,
};
use ovos_bus::utils::remove_comments;
use std::collections::HashMap;

fn setup_default_config_environment() -> Environment {
    Environment::new()
}

fn setup_test_config() -> ConfigFile {
    let websocket = WebSocketConfig {
        host: Some("openvoiceos.org".to_string()),
        port: Some(847),
        route: None,
        ssl: None,
        max_msg_size: Some(64),
        extra: HashMap::new(),
    };
    ConfigFile { parsed: Some(RootConfig { websocket: Some(websocket) }), reparsed: None }
}

const TEST_CONFIG_TEXT: &str = "{\n  // the bus\n  \"websocket\": {\n    \"host\": \"openvoiceos.org\",\n    // not the default port\n    \"port\": 847,\n    \"max_msg_size\": 64,\n    \"shared_connection\": true\n  }\n}\n";

fn read_section(section: &serde_yaml::Value) -> Option<WebSocketConfig> {
    let mut websocket = WebSocketConfig {
        host: None,
        port: None,
        route: None,
        ssl: None,
        max_msg_size: None,
        extra: HashMap::new(),
    };
    for (key, item) in section.as_mapping()? {
        match key.as_str()? {
            "host" => websocket.host = Some(item.as_str()?.to_string()),
            "port" => websocket.port = Some(u16::try_from(item.as_u64()?).ok()?),
            "route" => websocket.route = Some(item.as_str()?.to_string()),
            "ssl" => websocket.ssl = Some(item.as_bool()?),
            "max_msg_size" => websocket.max_msg_size = Some(u32::try_from(item.as_u64()?).ok()?),
            other => {
                websocket.extra.insert(other.to_string(), item.clone());
            }
        }
    }
    Some(websocket)
}

fn read_root(text: &str) -> Option<RootConfig> {
    let value: serde_yaml::Value = serde_yaml::from_str(text).ok()?;
    let websocket = match value.get("websocket") {
        None => None,
        Some(section) => Some(read_section(section)?),
    };
    Some(RootConfig { websocket })
}

fn read_file(text: &str) -> ConfigFile {
    let parsed = read_root(text);
    let reparsed = match parsed {
        Some(_) => None,
        None => String::from_utf8(remove_comments(text.as_bytes())).ok().and_then(|t| read_root(&t)),
    };
    ConfigFile { parsed, reparsed }
}

#[test]
fn test_default_config() {
    let test_conf = Config::new(None, setup_default_config_environment());
    assert_eq!(test_conf.host, "127.0.0.1".to_string());
    assert_eq!(test_conf.port, 8181);
    assert_eq!(test_conf.route, "/core".to_string());
    assert_eq!(test_conf.max_msg_size, 25);
    assert!(!test_conf.ssl);
}

#[test]
fn test_env_overrides() {
    let mut env = setup_default_config_environment();
    env.set("OVOS_BUS_PORT", "1337".to_string());
    env.set("OVOS_BUS_HOST", "battle.net".to_string());
    env.set("OVOS_BUS_MAX_MSG_SIZE", "42".to_string());
    env.set("OVOS_BUS_ROUTE", "/modermodemet".to_string());
    env.set("OVOS_BUS_USE_SSL", "true".to_string());

    let test_conf = Config::new(None, env);
    assert_eq!(test_conf.port, 1337);
    assert_eq!(test_conf.host, "battle.net".to_string());
    assert_eq!(test_conf.max_msg_size, 42);
    assert_eq!(test_conf.route, "/modermodemet");
    assert!(test_conf.ssl);
}

#[test]
fn test_config_file() {
    let test_conf = Config::new(Some(setup_test_config()), setup_default_config_environment());

    assert_eq!(test_conf.port, 847);
    assert_eq!(test_conf.host, "openvoiceos.org".to_string());
    assert_eq!(test_conf.max_msg_size, 64);
}

#[test]
fn file_settings_keep_what_the_file_leaves_out() {
    let test_conf = Config::new(Some(setup_test_config()), setup_default_config_environment());
    assert_eq!(test_conf.route, "/core");
    assert!(!test_conf.ssl);
    assert!(test_conf.extra.is_empty());
}

#[test]
fn environment_wins_over_the_file() {
    let mut env = setup_default_config_environment();
    env.port = Some("9000".to_string());
    let test_conf = Config::new(Some(setup_test_config()), env);
    assert_eq!(test_conf.port, 9000);
    assert_eq!(test_conf.host, "openvoiceos.org");
}

#[test]
fn use_ssl_counts_whatever_it_holds() {
    let mut env = setup_default_config_environment();
    env.use_ssl = Some("false".to_string());
    assert!(Config::new(None, env).ssl);
}

#[test]
fn a_port_that_is_no_number_changes_nothing() {
    for text in ["", "+", "-1", "65536", "80 ", " 80", "8o", "0x50", "1_000"] {
        let mut env = setup_default_config_environment();
        env.port = Some(text.to_string());
        env.max_msg_size = Some("4294967296".to_string());
        let test_conf = Config::new(None, env);
        assert_eq!(test_conf.port, 8181, "port text {:?}", text);
        assert_eq!(test_conf.max_msg_size, 25);
    }
}

#[test]
fn numbers_parse_as_the_standard_library_parses_them() {
    for text in ["0", "7", "+7", "007", "65535", "65536", "+", "", "-0", "12a", "٣", "1 "] {
        let expected: Option<u64> = text.parse::<u16>().ok().map(u64::from);
        assert_eq!(parse_number(text, 65535), expected, "text {:?}", text);
    }
    for text in ["4294967295", "4294967296", "+0004294967295", "99999999999999999999999"] {
        let expected: Option<u64> = text.parse::<u32>().ok().map(u64::from);
        assert_eq!(parse_number(text, 4294967295), expected, "text {:?}", text);
    }
    assert_eq!(parse_number("18446744073709551615", u64::MAX), Some(u64::MAX));
    assert_eq!(parse_number("18446744073709551616", u64::MAX), None);
}

#[test]
fn the_reparsed_file_counts_only_where_the_first_reading_failed() {
    let other = RootConfig {
        websocket: Some(WebSocketConfig {
            host: Some("second".to_string()),
            port: None,
            route: None,
            ssl: Some(true),
            max_msg_size: None,
            extra: HashMap::new(),
        }),
    };
    let both = ConfigFile { parsed: setup_test_config().parsed, reparsed: Some(other.clone()) };
    let from_first = Config::parse_config(both, Config::defaults());
    assert_eq!(from_first.host, "openvoiceos.org");
    assert!(!from_first.ssl);

    let second_only = ConfigFile { parsed: None, reparsed: Some(other) };
    let from_second = Config::parse_config(second_only, Config::defaults());
    assert_eq!(from_second.host, "second");
    assert_eq!(from_second.port, 8181);
    assert!(from_second.ssl);

    let neither = ConfigFile { parsed: None, reparsed: None };
    let unchanged = Config::parse_config(neither, Config::defaults());
    assert_eq!(unchanged.host, "127.0.0.1");
    assert_eq!(unchanged.port, 8181);
}

#[test]
fn a_file_without_websocket_section_changes_nothing() {
    let mut before = Config::defaults();
    before.extra.insert("kept".to_string(), serde_yaml::Value::from(1));
    let after = Config::apply_config(RootConfig { websocket: None }, before);
    assert_eq!(after.host, "127.0.0.1");
    assert_eq!(after.extra.get("kept"), Some(&serde_yaml::Value::from(1)));
}

#[test]
fn unknown_options_replace_the_extra_bag() {
    let mut extra = HashMap::new();
    extra.insert("shared_connection".to_string(), serde_yaml::Value::from(true));
    let mut before = Config::defaults();
    before.extra.insert("old".to_string(), serde_yaml::Value::from("x"));
    let root = RootConfig {
        websocket: Some(WebSocketConfig {
            host: None,
            port: None,
            route: Some("/bus".to_string()),
            ssl: None,
            max_msg_size: None,
            extra,
        }),
    };
    let after = Config::apply_config(root, before);
    assert_eq!(after.route, "/bus");
    assert_eq!(after.extra.len(), 1);
    assert_eq!(after.extra.get("shared_connection"), Some(&serde_yaml::Value::from(true)));
}

#[test]
fn comment_lines_are_removed_and_all_else_stays() {
    let text = b"{\n  // the host\n  \"websocket\": {\n\t//port\n    \"port\": 847 // not a comment line\n  }\n}";
    let expected = b"{\n  \"websocket\": {\n    \"port\": 847 // not a comment line\n  }\n}";
    assert_eq!(remove_comments(text), expected.to_vec());
    assert_eq!(remove_comments(b""), Vec::<u8>::new());
    assert_eq!(remove_comments(b"// only"), Vec::<u8>::new());
    assert_eq!(remove_comments(b"// only\n"), Vec::<u8>::new());
    assert_eq!(remove_comments(b"a\n//b\nc"), b"a\nc".to_vec());
    assert_eq!(remove_comments(b"/ /x\n/\n"), b"/ /x\n/\n".to_vec());
    assert_eq!(remove_comments(b"\n\n"), b"\n\n".to_vec());
}

#[test]
fn only_the_five_variables_override() {
    let mut env = Environment::new();
    assert!(env.set("OVOS_BUS_HOST", "a".to_string()));
    assert!(env.set("OVOS_BUS_PORT", "1".to_string()));
    assert!(env.set("OVOS_BUS_MAX_MSG_SIZE", "2".to_string()));
    assert!(env.set("OVOS_BUS_ROUTE", "/r".to_string()));
    assert!(env.set("OVOS_BUS_USE_SSL", "".to_string()));
    assert!(!env.set("OVOS_BUS_CONFIG_FILE", "x.yml".to_string()));
    assert!(!env.set("ovos_bus_host", "b".to_string()));
    assert!(!env.set("OVOS_BUS_HOST ", "b".to_string()));
    assert!(!env.set("", "b".to_string()));
    assert_eq!(env.host.as_deref(), Some("a"));
    assert_eq!(env.port.as_deref(), Some("1"));
    assert_eq!(env.max_msg_size.as_deref(), Some("2"));
    assert_eq!(env.route.as_deref(), Some("/r"));
    assert_eq!(env.use_ssl.as_deref(), Some(""));
    assert!(env.set("OVOS_BUS_HOST", "c".to_string()));
    assert_eq!(env.host.as_deref(), Some("c"));
}

#[test]
fn texts_are_compared_by_their_characters() {
    assert!(same_text("", ""));
    assert!(same_text("gr\u{fc}n", "gr\u{fc}n"));
    assert!(!same_text("a", "b"));
    assert!(!same_text("a", "ab"));
    assert!(!same_text("ab", "a"));
}

#[test]
fn a_file_with_comment_lines_is_read_without_them() {
    let file = read_file(TEST_CONFIG_TEXT);
    assert!(file.parsed.is_none());
    assert!(file.reparsed.is_some());
    let test_conf = Config::new(Some(file), setup_default_config_environment());
    assert_eq!(test_conf.port, 847);
    assert_eq!(test_conf.host, "openvoiceos.org".to_string());
    assert_eq!(test_conf.max_msg_size, 64);
    assert_eq!(test_conf.route, "/core");
    assert_eq!(test_conf.extra.get("shared_connection"), Some(&serde_yaml::Value::from(true)));
    assert_eq!(test_conf.extra.len(), 1);
}

#[test]
fn a_file_that_is_no_yaml_leaves_the_defaults() {
    let file = read_file("{ \"websocket\": [ unbalanced");
    assert!(file.parsed.is_none());
    assert!(file.reparsed.is_none());
    let test_conf = Config::new(Some(file), setup_default_config_environment());
    assert_eq!(test_conf.port, 8181);
    assert_eq!(test_conf.host, "127.0.0.1");
}
