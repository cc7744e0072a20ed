use portfolio_server::config::{
    config_from_bytes, extract_value, parse_key_value, parse_yaml_config, write_config,
    AppConfig, ConfigError, ServerConfig, StaticConfig,
};
use portfolio_server::bytemap::ByteMap;

const SAMPLE: &[u8] = b"server:\n  host: \"127.0.0.1\"\n  port: 8080\n\nstatic:\n  root_dir: \"public\"\n  index_file: \"index.html\"\n  auto_index: true\n  routes:\n    /about: \"pages/about.html\"\n    /cv: \"pages/cv.html\"\n\ncontent_types:\n  .md: \"text/markdown\"\n";

#[test]
fn sample_config_parses() {
    let cfg = config_from_bytes(SAMPLE).unwrap();
    assert_eq!(cfg.server.host, b"127.0.0.1".to_vec());
    assert_eq!(cfg.server.port, 8080);
    assert_eq!(cfg.static_cfg.root_dir, b"public".to_vec());
    assert_eq!(cfg.static_cfg.index_file, b"index.html".to_vec());
    assert!(cfg.static_cfg.auto_index);
    assert_eq!(
        cfg.static_cfg.routes.get(b"/about").unwrap(),
        &b"pages/about.html".to_vec()
    );
    assert_eq!(cfg.static_cfg.routes.get(b"/cv").unwrap(), &b"pages/cv.html".to_vec());
    assert_eq!(cfg.content_types.get(b".md").unwrap(), &b"text/markdown".to_vec());
}

#[test]
fn unquoted_values_and_crlf_lines_parse() {
    let text = b"server:\r\n  host: localhost\r\n  port: 9999\r\n\r\nstatic:\r\n  root_dir: www\r\n  index_file: home.html\r\n  auto_index: TRUE\r\n";
    let cfg = config_from_bytes(text).unwrap();
    assert_eq!(cfg.server.host, b"localhost".to_vec());
    assert_eq!(cfg.server.port, 9999);
    assert_eq!(cfg.static_cfg.root_dir, b"www".to_vec());
    assert!(cfg.static_cfg.auto_index, "auto_index comparison is case-insensitive");
}

#[test]
fn invalid_port_is_a_parse_error() {
    let text = b"server:\n  host: h\n  port: not-a-number\n";
    let e = parse_yaml_config(text).unwrap_err();
    match e {
        ConfigError::Parse(msg) => assert_eq!(msg, b"Invalid port number".to_vec()),
        other => panic!("expected Parse, got {:?}", other),
    }
    let too_big = b"server:\n  host: h\n  port: 70000\n";
    assert!(matches!(parse_yaml_config(too_big).unwrap_err(), ConfigError::Parse(_)));
}

#[test]
fn blank_required_fields_are_invalid() {
    let no_host = b"server:\n  port: 1\n\nstatic:\n  root_dir: r\n  index_file: i\n";
    match config_from_bytes(no_host).unwrap_err() {
        ConfigError::Invalid(msg) => assert_eq!(msg, b"server.host cannot be empty".to_vec()),
        other => panic!("expected Invalid, got {:?}", other),
    }
    let no_root = b"server:\n  host: h\n";
    match config_from_bytes(no_root).unwrap_err() {
        ConfigError::Invalid(msg) => assert_eq!(msg, b"static.root_dir cannot be empty".to_vec()),
        other => panic!("expected Invalid, got {:?}", other),
    }
    let no_index = b"server:\n  host: h\n\nstatic:\n  root_dir: r\n";
    match config_from_bytes(no_index).unwrap_err() {
        ConfigError::Invalid(msg) => {
            assert_eq!(msg, b"static.index_file cannot be empty".to_vec())
        },
        other => panic!("expected Invalid, got {:?}", other),
    }
}

#[test]
fn section_directly_after_section_is_consumed_by_the_scan() {
    // without a separating line, the line ending an indented section is
    // consumed unprocessed, so the following section never opens
    let text = b"server:\n  host: h\n  port: 1\nstatic:\n  root_dir: r\n  index_file: i\n";
    match config_from_bytes(text).unwrap_err() {
        ConfigError::Invalid(msg) => assert_eq!(msg, b"static.root_dir cannot be empty".to_vec()),
        other => panic!("expected Invalid, got {:?}", other),
    }
}

#[test]
fn extract_value_splits_and_unquotes() {
    assert_eq!(extract_value(b"key: \"value\"").unwrap(), b"value".to_vec());
    assert_eq!(extract_value(b"key:  spaced  ").unwrap(), b"spaced".to_vec());
    assert_eq!(extract_value(b"key: a:b:c").unwrap(), b"a:b:c".to_vec());
    assert!(matches!(extract_value(b"no separator"), Err(ConfigError::Parse(_))));
}

#[test]
fn parse_key_value_splits_at_first_colon() {
    let (k, v) = parse_key_value(b"/about: \"pages/about.html\"").unwrap();
    assert_eq!(k, b"/about".to_vec());
    assert_eq!(v, b"pages/about.html".to_vec());
    assert!(parse_key_value(b"nothing here").is_none());
}

fn sample_config() -> AppConfig {
    let mut routes = ByteMap::new();
    routes.insert(b"/about".to_vec(), b"pages/about.html".to_vec());
    routes.insert(b"/cv".to_vec(), b"pages/cv.html".to_vec());
    let mut content_types = ByteMap::new();
    content_types.insert(b".md".to_vec(), b"text/markdown".to_vec());
    content_types.insert(b".wasm".to_vec(), b"application/wasm".to_vec());
    AppConfig {
        server: ServerConfig { host: b"0.0.0.0".to_vec(), port: 8123 },
        static_cfg: StaticConfig {
            root_dir: b"public".to_vec(),
            index_file: b"index.html".to_vec(),
            auto_index: true,
            routes,
        },
        content_types,
    }
}

#[test]
fn write_then_load_round_trips() {
    let cfg = sample_config();
    let text = write_config(&cfg);
    let back = config_from_bytes(&text).unwrap();
    assert_eq!(back.server.host, cfg.server.host);
    assert_eq!(back.server.port, cfg.server.port);
    assert_eq!(back.static_cfg.root_dir, cfg.static_cfg.root_dir);
    assert_eq!(back.static_cfg.index_file, cfg.static_cfg.index_file);
    assert_eq!(back.static_cfg.auto_index, cfg.static_cfg.auto_index);
    assert_eq!(
        back.static_cfg.routes.get(b"/about").unwrap(),
        &b"pages/about.html".to_vec()
    );
    assert_eq!(back.static_cfg.routes.get(b"/cv").unwrap(), &b"pages/cv.html".to_vec());
    assert_eq!(back.static_cfg.routes.len(), 2);
    assert_eq!(back.content_types.get(b".md").unwrap(), &b"text/markdown".to_vec());
    assert_eq!(back.content_types.get(b".wasm").unwrap(), &b"application/wasm".to_vec());
    assert_eq!(back.content_types.len(), 2);
}

#[test]
fn round_trip_keeps_awkward_values() {
    let mut routes = ByteMap::new();
    routes.insert(b"/q".to_vec(), b"  value with edges  ".to_vec());
    let cfg = AppConfig {
        server: ServerConfig { host: b"with \"quotes\" inside".to_vec(), port: 65535 },
        static_cfg: StaticConfig {
            root_dir: b"dir: with colon".to_vec(),
            index_file: b"i".to_vec(),
            auto_index: false,
            routes,
        },
        content_types: ByteMap::new(),
    };
    let text = write_config(&cfg);
    let back = config_from_bytes(&text).unwrap();
    assert_eq!(back.server.host, cfg.server.host);
    assert_eq!(back.server.port, 65535);
    assert_eq!(back.static_cfg.root_dir, b"dir: with colon".to_vec());
    assert!(!back.static_cfg.auto_index);
    assert_eq!(back.static_cfg.routes.get(b"/q").unwrap(), &b"  value with edges  ".to_vec());
}
