use static_host::{
    default_config_name, file_serve_for, forward_target, locate_config, Config, ConfigError, ConfigFile, ConfigItem,
    ConfigLocation, ConfigSource, DescriptorError, DispatchOutcome, FieldValue, RawDescriptor, RawDocument,
};

fn dir(path: Option<&str>, index: Option<&str>, listing: Option<bool>) -> ConfigItem {
    ConfigItem::Directory {
        path: path.map(|p| p.to_string()),
        index: index.map(|i| i.to_string()),
        dir: listing,
    }
}

fn proxy(to: &str) -> ConfigItem {
    ConfigItem::Proxy { proxy_to: to.to_string() }
}

fn build(entries: Vec<(&str, ConfigItem)>) -> Config {
    let map = entries.into_iter().map(|(p, i)| (p.to_string(), i)).collect();
    Config::from_config_file(ConfigFile { map })
}

fn prefixes(config: &Config) -> Vec<String> {
    config.items().iter().map(|(p, _)| p.clone()).collect()
}

fn text(s: &str) -> FieldValue {
    FieldValue::Text(s.to_string())
}

fn object(fields: Vec<(&str, FieldValue)>) -> RawDescriptor {
    RawDescriptor::Object(fields.into_iter().map(|(k, v)| (k.to_string(), v)).collect())
}

#[test]
fn longest_prefix_wins() {
    let config = build(vec![("/a", dir(None, None, None)), ("/ab", proxy("https://origin.test/x"))]);
    assert_eq!(
        config.dispatch("/abc", ""),
        DispatchOutcome::Forward { target_url: "https://origin.test/xc".to_string() }
    );
    let (prefix, _) = config.get(&"/abc".to_string()).unwrap();
    assert_eq!(prefix, "/ab");
    assert_eq!(
        config.dispatch("/ax", ""),
        DispatchOutcome::FileServe { local_path: "/a".to_string(), index_file: "index.html".to_string(), allow_listing: true }
    );
}

#[test]
fn default_directory_collapse() {
    let file = ConfigFile::from_directory("/srv/www".to_string());
    let config = Config::from_config_file(file);
    assert_eq!(config.items().len(), 1);
    assert_eq!(config.items()[0].0, "/");
    assert_eq!(config.items()[0].1, dir(Some("/srv/www"), None, None));
    assert_eq!(
        config.dispatch("/docs/a.txt", "q=1"),
        DispatchOutcome::FileServe {
            local_path: "/srv/www".to_string(),
            index_file: "index.html".to_string(),
            allow_listing: true
        }
    );
}

#[test]
fn proxy_url_reconstruction() {
    let config = build(vec![("/api", proxy("https://example.com/v1"))]);
    assert_eq!(
        config.dispatch("/api/get", "ans=42"),
        DispatchOutcome::Forward { target_url: "https://example.com/v1/get?ans=42".to_string() }
    );
    assert_eq!(
        config.dispatch("/api/get", ""),
        DispatchOutcome::Forward { target_url: "https://example.com/v1/get".to_string() }
    );
}

#[test]
fn raw_prefix_match_is_not_segment_aware() {
    let config = build(vec![("/api", proxy("http://up"))]);
    assert_eq!(config.dispatch("/apiary", ""), DispatchOutcome::Forward { target_url: "http://upary".to_string() });
}

#[test]
fn no_match() {
    let config = build(vec![("/a", dir(None, None, None)), ("/b", dir(None, None, None))]);
    assert_eq!(config.dispatch("/zzz", ""), DispatchOutcome::NoMatch);
    assert!(config.get(&"/zzz".to_string()).is_none());
}

#[test]
fn empty_rule_table_matches_nothing() {
    let config = build(vec![]);
    assert_eq!(config.dispatch("/", ""), DispatchOutcome::NoMatch);
}

#[test]
fn determinism() {
    let entries = || {
        vec![
            ("/bb", dir(None, None, None)),
            ("/a", dir(None, None, None)),
            ("/cc", proxy("http://c")),
            ("/dddd", dir(None, None, None)),
            ("/e", proxy("http://e")),
        ]
    };
    let first = build(entries());
    let second = build(entries());
    assert_eq!(prefixes(&first), prefixes(&second));
    assert_eq!(prefixes(&first), vec!["/dddd", "/bb", "/cc", "/a", "/e"]);
}

#[test]
fn sort_uses_byte_length() {
    let config = build(vec![("/ab", dir(None, None, None)), ("/é", dir(None, None, None))]);
    assert_eq!(prefixes(&config), vec!["/ab", "/é"]);
    let config = build(vec![("/abc", dir(None, None, None)), ("/é", dir(None, None, None))]);
    assert_eq!(prefixes(&config), vec!["/abc", "/é"]);
}

#[test]
fn repeated_dispatch_is_consistent() {
    let config = build(vec![("/api", proxy("https://example.com/v1")), ("/", dir(Some("/srv"), None, None))]);
    let requests = [("/api/x", "a=1"), ("/index.html", ""), ("/api", ""), ("/apix", "q")];
    let expected: Vec<DispatchOutcome> = requests.iter().map(|(p, q)| config.dispatch(p, q)).collect();
    for _ in 0..50 {
        for (k, (p, q)) in requests.iter().enumerate().rev() {
            assert_eq!(config.dispatch(p, q), expected[k]);
        }
    }
    assert_eq!(expected[2], DispatchOutcome::Forward { target_url: "https://example.com/v1".to_string() });
    assert_eq!(expected[3], DispatchOutcome::Forward { target_url: "https://example.com/v1x?q".to_string() });
}

#[test]
fn directory_settings() {
    let config = build(vec![("/static", dir(Some("./public"), Some("home.htm"), Some(false)))]);
    assert_eq!(
        config.dispatch("/static/img.png", ""),
        DispatchOutcome::FileServe {
            local_path: "./public".to_string(),
            index_file: "home.htm".to_string(),
            allow_listing: false
        }
    );
    let out = file_serve_for(&"/x".to_string(), &None, &None, &None);
    assert_eq!(
        out,
        DispatchOutcome::FileServe { local_path: "/x".to_string(), index_file: "index.html".to_string(), allow_listing: true }
    );
}

#[test]
fn forward_target_strips_matched_prefix() {
    let url = forward_target(&"http://o/p".to_string(), "/héllo", "/héllo/wörld", "k=v&x");
    assert_eq!(url, "http://o/p/wörld?k=v&x");
}

#[test]
fn malformed_config_rejection_both_shapes() {
    let raw = object(vec![("proxy_to", text("http://o")), ("path", text("/d"))]);
    assert_eq!(ConfigItem::from_descriptor(&raw), Err(DescriptorError::BothShapes));
    let doc = RawDocument::Mapping(vec![("/ok".to_string(), object(vec![])), ("/bad".to_string(), raw)]);
    assert_eq!(
        Config::from_config_path(ConfigSource::Document(doc)).err(),
        Some(ConfigError::Descriptor { prefix: "/bad".to_string(), error: DescriptorError::BothShapes })
    );
    let raw = object(vec![("dir", FieldValue::Flag(true)), ("proxy_to", text("http://o"))]);
    assert_eq!(ConfigItem::from_descriptor(&raw), Err(DescriptorError::BothShapes));
}

#[test]
fn malformed_config_rejection_neither_shape() {
    let raw = object(vec![("path", text("/d")), ("proxy", text("http://o"))]);
    assert_eq!(ConfigItem::from_descriptor(&raw), Err(DescriptorError::UnknownField("proxy".to_string())));
    let raw = object(vec![("dir", text("yes"))]);
    assert_eq!(ConfigItem::from_descriptor(&raw), Err(DescriptorError::WrongFieldType("dir".to_string())));
    let raw = object(vec![("proxy_to", FieldValue::Flag(true))]);
    assert_eq!(ConfigItem::from_descriptor(&raw), Err(DescriptorError::WrongFieldType("proxy_to".to_string())));
    let raw = object(vec![("index", FieldValue::Other)]);
    assert_eq!(ConfigItem::from_descriptor(&raw), Err(DescriptorError::WrongFieldType("index".to_string())));
    assert_eq!(ConfigItem::from_descriptor(&RawDescriptor::NotAnObject), Err(DescriptorError::NotAnObject));
}

#[test]
fn descriptor_shapes_decode() {
    assert_eq!(ConfigItem::from_descriptor(&object(vec![])), Ok(dir(None, None, None)));
    let raw = object(vec![("path", text("/d")), ("index", text("i.htm")), ("dir", FieldValue::Flag(false))]);
    assert_eq!(ConfigItem::from_descriptor(&raw), Ok(dir(Some("/d"), Some("i.htm"), Some(false))));
    let raw = object(vec![("proxy_to", text("https://httpbin.org/get"))]);
    assert_eq!(ConfigItem::from_descriptor(&raw), Ok(proxy("https://httpbin.org/get")));
    let raw = object(vec![("path", text("/one")), ("path", text("/two"))]);
    assert_eq!(ConfigItem::from_descriptor(&raw), Ok(dir(Some("/two"), None, None)));
}

#[test]
fn document_errors() {
    assert_eq!(ConfigFile::from_document(&RawDocument::NotAMapping).err(), Some(ConfigError::NotAMapping));
    let doc = RawDocument::Mapping(vec![("/x".to_string(), RawDescriptor::NotAnObject)]);
    assert_eq!(
        ConfigFile::from_document(&doc).err(),
        Some(ConfigError::Descriptor { prefix: "/x".to_string(), error: DescriptorError::NotAnObject })
    );
    let source = ConfigSource::Unreadable("no such file".to_string());
    assert_eq!(
        Config::from_config_path(source).err(),
        Some(ConfigError::Unreadable { cause: "no such file".to_string() })
    );
}

#[test]
fn document_builds_sorted_table() {
    let doc = RawDocument::Mapping(vec![
        ("/".to_string(), object(vec![("path", text("."))])),
        ("/api/get".to_string(), object(vec![("proxy_to", text("https://httpbin.org/get"))])),
    ]);
    let config = Config::from_config_path(ConfigSource::Document(doc)).unwrap();
    assert_eq!(prefixes(&config), vec!["/api/get", "/"]);
    assert_eq!(
        config.dispatch("/api/get", "ans=42"),
        DispatchOutcome::Forward { target_url: "https://httpbin.org/get?ans=42".to_string() }
    );
    let config = Config::from_config_path(ConfigSource::Directory("/var/www".to_string())).unwrap();
    assert_eq!(prefixes(&config), vec!["/"]);
}

#[test]
fn locating_the_configuration() {
    assert_eq!(default_config_name(), "static_host.json");
    assert_eq!(locate_config(None, false, false), ConfigLocation::ServeWorkingDirectory);
    assert_eq!(locate_config(None, true, true), ConfigLocation::ReadFile("static_host.json".to_string()));
    assert_eq!(locate_config(None, true, false), ConfigLocation::ServeDirectory("static_host.json".to_string()));
    assert_eq!(locate_config(Some("c.json".to_string()), false, true), ConfigLocation::ReadFile("c.json".to_string()));
    assert_eq!(locate_config(Some("www".to_string()), true, false), ConfigLocation::ServeDirectory("www".to_string()));
}

#[test]
fn empty_prefix_rejected() {
    let doc = RawDocument::Mapping(vec![("".to_string(), object(vec![]))]);
    assert_eq!(
        Config::from_config_path(ConfigSource::Document(doc)).err(),
        Some(ConfigError::EmptyPrefix)
    );
    let doc = RawDocument::Mapping(vec![
        ("/a".to_string(), object(vec![("proxy", text("x"))])),
        ("".to_string(), object(vec![])),
    ]);
    assert_eq!(
        ConfigFile::from_document(&doc).err(),
        Some(ConfigError::Descriptor { prefix: "/a".to_string(), error: DescriptorError::UnknownField("proxy".to_string()) })
    );
}

#[test]
fn duplicate_prefix_rejected() {
    let doc = RawDocument::Mapping(vec![
        ("/a".to_string(), object(vec![])),
        ("/b".to_string(), object(vec![("proxy_to", text("http://b"))])),
        ("/a".to_string(), object(vec![("proxy_to", text("http://a"))])),
    ]);
    assert_eq!(
        Config::from_config_path(ConfigSource::Document(doc)).err(),
        Some(ConfigError::DuplicatePrefix { prefix: "/a".to_string() })
    );
}
