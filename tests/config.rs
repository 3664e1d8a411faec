use std::collections::HashSet;
use std::sync::Arc;
use std::time::Duration;

use rachat_config::error::ConfigError;
use rachat_config::file::FileConfig;
use rachat_config::flat::{deserialize, key_segments, serialize, FlatMap};
use rachat_config::gui::{MyObject, RachatPages};
use rachat_config::id::{compose, random_node, IdGenerator};
use rachat_config::overlay::ConfigurationOverlay;
use rachat_config::source::{langs_value, windows_style, ConfigSource, PlatformConfig, StaticConfig};
use rachat_config::value::ConfigValue;
use tokio::sync::Notify;

fn s(text: &str) -> ConfigValue {
    ConfigValue::String(text.to_string())
}

fn table(entries: Vec<(&str, ConfigValue)>) -> ConfigValue {
    ConfigValue::Object(entries.into_iter().map(|(k, v)| (k.to_string(), v)).collect())
}

fn empty_table() -> ConfigValue {
    ConfigValue::Object(Vec::new())
}

fn same(a: &ConfigValue, b: &ConfigValue) -> bool {
    a.same_as(b)
}

fn signalled(notify: &Arc<Notify>) -> bool {
    let rt = tokio::runtime::Builder::new_current_thread().enable_time().build().unwrap();
    rt.block_on(async { tokio::time::timeout(Duration::from_millis(20), notify.notified()).await.is_ok() })
}

#[test]
fn ensure_order() {
    let mut ids = IdGenerator::for_thread(random_node());
    let id1 = ids.generate();
    let id2 = ids.generate();

    assert!(id1 < id2);
}

#[test]
fn ensure_unique() {
    let mut generator = IdGenerator::for_thread(random_node());
    let mut ids = HashSet::with_capacity(10_000);

    for _ in 0..ids.capacity() {
        ids.insert(generator.generate());
    }

    assert_eq!(ids.len(), ids.capacity());
}

#[test]
fn ids_pack_time_node_thread_and_counter() {
    let id = compose(5, 0x0102, 0x0304, 0x0506);
    assert_eq!(id, (5u128 << 48) | (0x0102 << 32) | (0x0304 << 16) | 0x0506);
    let mut generator = IdGenerator::new(7, 9);
    let a = generator.generate_at(1_000);
    let b = generator.generate_at(1_000);
    assert_eq!(a, (1_000u128 << 48) | (7 << 32) | (9 << 16));
    assert_eq!(b, a + 1);
    assert_eq!(generator.counter, 2);
}

#[test]
fn ids_from_different_discriminators_differ() {
    let mut first = IdGenerator::new(1, 2);
    let mut second = IdGenerator::new(1, 3);
    let mut third = IdGenerator::new(4, 2);
    let a = first.generate_at(77);
    let b = second.generate_at(77);
    let c = third.generate_at(77);
    assert_ne!(a, b);
    assert_ne!(a, c);
    assert_ne!(b, c);
}

#[test]
fn ids_keep_the_low_eighty_bits_of_the_stamp() {
    let stamp = (1u128 << 80) + 3;
    assert_eq!(compose(stamp, 0, 0, 0), 3u128 << 48);
}

#[test]
fn id_counter_wraps() {
    let mut generator = IdGenerator { node: 1, thread: 2, counter: u16::MAX };
    let id = generator.generate_at(0);
    assert_eq!(id & 0xffff, 0xffff);
    assert_eq!(generator.counter, 0);
}

#[test]
fn generated_ids_carry_discriminators() {
    let mut generator = IdGenerator::new(0xabcd, 0x1234);
    let id = generator.generate();
    assert_eq!((id >> 32) & 0xffff, 0xabcd);
    assert_eq!((id >> 16) & 0xffff, 0x1234);
    assert_eq!(id & 0xffff, 0);
}

#[test]
fn key_segments_split_at_dots() {
    assert_eq!(key_segments("profile.default"), vec!["profile".to_string(), "default".to_string()]);
    assert_eq!(key_segments("plain"), vec!["plain".to_string()]);
    assert_eq!(key_segments(""), vec![String::new()]);
    assert_eq!(key_segments("a..b."), vec!["a".to_string(), String::new(), "b".to_string(), String::new()]);
}

#[test]
fn flatten_joins_nested_keys() {
    let doc = table(vec![
        ("profile", table(vec![("default", s("work")), ("other", ConfigValue::Integer(3))])),
        ("i18n", table(vec![("langs", ConfigValue::Array(vec![s("en-US"), s("de")]))])),
        ("flag", ConfigValue::Bool(true)),
    ]);
    let flat = deserialize(&doc);
    assert_eq!(flat.len(), 4);
    assert_eq!(flat.key_at(0), "profile.default");
    assert_eq!(flat.key_at(1), "profile.other");
    assert_eq!(flat.key_at(2), "i18n.langs");
    assert_eq!(flat.key_at(3), "flag");
    assert!(same(&flat.get("profile.default").unwrap(), &s("work")));
    assert!(same(&flat.get("i18n.langs").unwrap(), &ConfigValue::Array(vec![s("en-US"), s("de")])));
    assert!(flat.get("profile").is_none());
}

#[test]
fn flatten_of_a_leaf_uses_the_empty_key() {
    let flat = deserialize(&ConfigValue::Integer(4));
    assert_eq!(flat.len(), 1);
    assert_eq!(flat.key_at(0), "");
}

#[test]
fn flatten_drops_empty_tables() {
    let doc = table(vec![("empty", empty_table()), ("x", ConfigValue::Null)]);
    let flat = deserialize(&doc);
    assert_eq!(flat.len(), 1);
    assert_eq!(flat.key_at(0), "x");
}

#[test]
fn round_trip_rebuilds_the_document() {
    let doc = table(vec![
        ("profile", table(vec![("default", s("work"))])),
        ("gui", table(vec![("qt", table(vec![("style", s("Fusion"))])), ("scale", ConfigValue::Float(0x3ff8_0000_0000_0000))])),
        ("top", ConfigValue::Integer(-1)),
    ]);
    let back = serialize(&deserialize(&doc)).ok().unwrap();
    assert!(same(&back, &doc));
}

#[test]
fn unflatten_of_empty_map_is_empty_table() {
    let back = serialize(&FlatMap::new()).ok().unwrap();
    assert!(same(&back, &empty_table()));
}

#[test]
fn unflatten_refuses_a_leaf_on_the_path() {
    let mut flat = FlatMap::new();
    flat.insert("a".to_string(), ConfigValue::Integer(1));
    flat.insert("a.b".to_string(), ConfigValue::Integer(2));
    match serialize(&flat) {
        Err(ConfigError::Conflict(key)) => assert_eq!(key, "a.b"),
        _ => panic!("expected a conflict"),
    }
}

#[test]
fn unflatten_refuses_a_leaf_over_a_table() {
    let mut flat = FlatMap::new();
    flat.insert("a.b".to_string(), ConfigValue::Integer(2));
    flat.insert("a".to_string(), ConfigValue::Integer(1));
    match serialize(&flat) {
        Err(ConfigError::Conflict(key)) => assert_eq!(key, "a"),
        _ => panic!("expected a conflict"),
    }
}

#[test]
fn flat_map_insert_replaces_in_place_and_remove_keeps_order() {
    let mut flat = FlatMap::new();
    flat.insert("a".to_string(), ConfigValue::Integer(1));
    flat.insert("b".to_string(), ConfigValue::Integer(2));
    flat.insert("a".to_string(), ConfigValue::Integer(3));
    assert_eq!(flat.len(), 2);
    assert_eq!(flat.key_at(0), "a");
    assert!(same(flat.value_at(0), &ConfigValue::Integer(3)));
    flat.remove("a");
    assert_eq!(flat.len(), 1);
    assert_eq!(flat.key_at(0), "b");
    flat.remove("missing");
    assert_eq!(flat.len(), 1);
}

#[test]
fn values_compare_by_contents() {
    let a = table(vec![("x", ConfigValue::Array(vec![ConfigValue::Null, s("y")]))]);
    let b = a.deep_clone();
    assert!(same(&a, &b));
    assert!(!same(&a, &table(vec![("x", ConfigValue::Array(vec![ConfigValue::Null]))])));
    assert!(!same(&ConfigValue::Integer(1), &ConfigValue::Float(1)));
    assert!(!same(&table(vec![("x", s("1"))]), &table(vec![("y", s("1"))])));
}

#[test]
fn file_source_end_to_end() {
    let mut ids = IdGenerator::new(1, 1);
    let mut file = FileConfig::new(String::new(), &empty_table());
    let _ = &mut ids;
    assert!(file.set_value("profile.default", s("work")).is_ok());
    assert!(same(&file.get_value("profile.default").unwrap(), &s("work")));
    let doc = file.document().ok().unwrap();
    assert!(same(&doc, &table(vec![("profile", table(vec![("default", s("work"))]))])));
}

fn as_json(value: &ConfigValue) -> serde_json::Value {
    match value {
        ConfigValue::Null => serde_json::Value::Null,
        ConfigValue::Bool(b) => serde_json::Value::Bool(*b),
        ConfigValue::Integer(i) => serde_json::Value::from(*i),
        ConfigValue::Float(bits) => serde_json::Value::from(f64::from_bits(*bits)),
        ConfigValue::String(s) => serde_json::Value::String(s.clone()),
        ConfigValue::Array(items) => serde_json::Value::Array(items.iter().map(as_json).collect()),
        ConfigValue::Object(entries) => {
            let mut map = serde_json::Map::new();
            for (k, v) in entries {
                map.insert(k.clone(), as_json(v));
            }
            serde_json::Value::Object(map)
        }
    }
}

#[test]
fn file_source_document_renders_nested_table() {
    let mut file = FileConfig::new(String::new(), &empty_table());
    assert!(file.set_value("profile.default", s("work")).is_ok());
    let text = toml::to_string_pretty(&as_json(&file.document().ok().unwrap())).unwrap();
    assert_eq!(text, "[profile]\ndefault = \"work\"\n");
}

#[test]
fn file_source_delete_removes_the_value() {
    let mut file = FileConfig::new("config.toml".to_string(), &table(vec![("a", ConfigValue::Integer(1))]));
    assert_eq!(file.path(), "config.toml");
    assert!(file.get_value("a").is_some());
    assert!(file.delete("a").is_ok());
    assert!(file.get_value("a").is_none());
}

#[test]
fn watch_fires_on_its_key_only() {
    let mut ids = IdGenerator::new(3, 4);
    let mut file = FileConfig::new(String::new(), &empty_table());
    let ab = file.watch_property("a.b", &mut ids);
    let cd = file.watch_property("c.d", &mut ids);
    assert_ne!(ab.id, cd.id);
    let fired = file.set_value("a.b", ConfigValue::Integer(5)).ok().unwrap();
    assert_eq!(fired, vec![ab.id]);
    assert!(signalled(&ab.notify));
    assert!(!signalled(&cd.notify));
}

#[test]
fn released_watch_is_not_signalled() {
    let mut ids = IdGenerator::new(3, 4);
    let mut file = FileConfig::new(String::new(), &empty_table());
    let watch = file.watch_property("a.b", &mut ids);
    file.delete_watcher(watch.id);
    file.delete_watcher(watch.id);
    let fired = file.set_value("a.b", ConfigValue::Integer(5)).ok().unwrap();
    assert!(fired.is_empty());
    assert!(!signalled(&watch.notify));
}

#[test]
fn one_notifier_shared_by_two_keys() {
    let mut ids = IdGenerator::new(3, 4);
    let mut file = FileConfig::new(String::new(), &empty_table());
    let notify = Arc::new(Notify::new());
    let first = file.watch_property_with_notify("x", notify.clone(), &mut ids);
    let second = file.watch_property_with_notify("y", notify.clone(), &mut ids);
    let fired = file.delete("y").ok().unwrap();
    assert_eq!(fired, vec![second.id]);
    assert_ne!(first.id, second.id);
    assert!(signalled(&notify));
}

#[test]
fn colliding_id_is_replaced() {
    let mut file = FileConfig::new(String::new(), &empty_table());
    let mut first = IdGenerator::new(0, 0);
    let mut second = IdGenerator::new(0, 0);
    let a = file.watch_property("k", &mut first);
    let b = file.watch_property("k", &mut second);
    assert_ne!(a.id, b.id);
    let mut fired = file.set_value("k", ConfigValue::Null).ok().unwrap();
    fired.sort();
    let mut expected = vec![a.id, b.id];
    expected.sort();
    assert_eq!(fired, expected);
}

#[test]
fn reload_signals_changed_keys_once() {
    let mut ids = IdGenerator::new(3, 4);
    let start = table(vec![("a", ConfigValue::Integer(1)), ("b", ConfigValue::Integer(2)), ("c", ConfigValue::Integer(3))]);
    let mut file = FileConfig::new(String::new(), &start);
    let wa = file.watch_property("a", &mut ids);
    let wb = file.watch_property("b", &mut ids);
    let wc = file.watch_property("c", &mut ids);
    let wd = file.watch_property("d", &mut ids);
    let edited = table(vec![("a", ConfigValue::Integer(1)), ("b", ConfigValue::Integer(20)), ("d", ConfigValue::Integer(4))]);
    let mut fired = file.reload(&edited);
    fired.sort();
    let mut expected = vec![wb.id, wc.id, wd.id];
    expected.sort();
    assert_eq!(fired, expected);
    assert!(!signalled(&wa.notify));
    assert!(signalled(&wb.notify));
    assert!(file.get_value("c").is_none());
    assert!(same(&file.get_value("d").unwrap(), &ConfigValue::Integer(4)));
    assert!(file.reload(&edited).is_empty());
}

#[test]
fn static_source_is_read_only() {
    let mut ids = IdGenerator::new(1, 2);
    let mut packaged = StaticConfig::new(&table(vec![("gui", table(vec![("theme", s("dark"))]))]));
    assert!(same(&packaged.get_value("gui.theme").unwrap(), &s("dark")));
    assert!(!packaged.is_writeable());
    assert!(matches!(packaged.set_value("gui.theme", s("light")), Err(ConfigError::NotWriteable)));
    assert!(matches!(packaged.delete("gui.theme"), Err(ConfigError::NotWriteable)));
    assert!(same(&packaged.get_value("gui.theme").unwrap(), &s("dark")));
    let watch = packaged.watch_property("gui.theme", &mut ids);
    packaged.delete_watcher(watch.id);
}

#[test]
fn platform_source_defaults() {
    let platform = PlatformConfig::with_locales(vec!["de-DE".to_string(), "en-US".to_string()]);
    assert!(same(&platform.get_value("profile.default").unwrap(), &s("default")));
    assert!(same(&platform.get_value("i18n.langs").unwrap(), &ConfigValue::Array(vec![s("de-DE"), s("en-US")])));
    assert!(platform.get_value("gui.qt.style").is_none());
    let system = PlatformConfig::new();
    assert!(same(&system.get_value("profile.default").unwrap(), &s("default")));
    assert!(same(&langs_value(vec!["fr".to_string()]), &ConfigValue::Array(vec![s("fr")])));
}

#[test]
fn overlay_precedence() {
    let parent = StaticConfig::new(&table(vec![("x", ConfigValue::Integer(1))]));
    let primary = FileConfig::new(String::new(), &empty_table());
    let mut overlay = ConfigurationOverlay::new(parent, primary);
    assert!(same(&overlay.get_value("x").unwrap(), &ConfigValue::Integer(1)));
    assert!(overlay.is_writeable());
    assert!(overlay.set_value("x", ConfigValue::Integer(2)).is_ok());
    assert!(same(&overlay.get_value("x").unwrap(), &ConfigValue::Integer(2)));
    assert!(overlay.delete("x").is_ok());
    assert!(same(&overlay.get_value("x").unwrap(), &ConfigValue::Integer(1)));
    assert!(overlay.get_value("y").is_none());
}

#[test]
fn overlay_over_read_only_primary_refuses_writes() {
    let parent = PlatformConfig::with_locales(Vec::new());
    let primary = StaticConfig::new(&empty_table());
    let mut overlay = ConfigurationOverlay::new(parent, primary);
    assert!(!overlay.is_writeable());
    assert!(matches!(overlay.set_value("x", ConfigValue::Null), Err(ConfigError::NotWriteable)));
    assert!(same(&overlay.get_value("profile.default").unwrap(), &s("default")));
}

#[test]
fn overlay_watch_fires_through_both_layers() {
    let mut ids = IdGenerator::new(5, 6);
    let inner = ConfigurationOverlay::new(StaticConfig::new(&empty_table()), PlatformConfig::with_locales(Vec::new()));
    let mut overlay = ConfigurationOverlay::new(inner, FileConfig::new(String::new(), &empty_table()));
    let ab = overlay.watch_property("a.b", &mut ids);
    let cd = overlay.watch_property("c.d", &mut ids);
    let fired = overlay.set_value("a.b", ConfigValue::Integer(5)).ok().unwrap();
    assert_eq!(fired, vec![ab.id]);
    assert!(signalled(&ab.notify));
    assert!(!signalled(&cd.notify));
    let changed = overlay.reload(&table(vec![("c", table(vec![("d", ConfigValue::Bool(false))]))]));
    let mut changed = changed;
    changed.sort();
    let mut expected = vec![ab.id, cd.id];
    expected.sort();
    assert_eq!(changed, expected);
    assert!(signalled(&ab.notify));
    assert!(signalled(&cd.notify));
    overlay.delete_watcher(ab.id);
    let fired = overlay.set_value("a.b", ConfigValue::Integer(6)).ok().unwrap();
    assert!(fired.is_empty());
    assert!(!signalled(&ab.notify));
    let doc = overlay.document().ok().unwrap();
    assert!(same(&doc, &table(vec![("c", table(vec![("d", ConfigValue::Bool(false))])), ("a", table(vec![("b", ConfigValue::Integer(6))]))])));
}

#[test]
fn error_messages() {
    assert_eq!(ConfigError::NotWriteable.message(), "Configuration store is not writeable");
    assert_eq!(ConfigError::Conflict("a.b".to_string()).message(), "Conflicting configuration key: a.b");
}

#[test]
fn my_object_increments() {
    let mut object = MyObject::new();
    object.increment_number();
    object.increment_number();
    assert_eq!(object.number(), 2);
    object.set_number(41);
    object.increment_number();
    assert_eq!(object.number(), 42);
    assert_eq!(object.string(), "");
}

#[test]
fn pages_have_resources() {
    assert_eq!(RachatPages::Root.as_ref(), "qrc:/qt/qml/rs/chir/rachat/qml/root.qml");
    assert_eq!(RachatPages::SelectHomeserver.as_ref(), "qrc:/qt/qml/rs/chir/rachat/qml/select-homeserver.qml");
    assert_eq!(RachatPages::Login.as_ref(), "qrc:/qt/qml/rs/chir/rachat/qml/login.qml");
}

#[test]
fn windows_style_by_version() {
    assert_eq!(windows_style(false, None, true, true), None);
    assert_eq!(windows_style(true, Some((10, 0, 22631)), true, true), None);
    assert_eq!(windows_style(false, Some((6, 1, 7601)), true, true), None);
    assert_eq!(windows_style(false, Some((6, 2, 0)), true, true).as_deref(), Some("Fusion"));
    assert_eq!(windows_style(false, Some((10, 0, 19045)), true, true).as_deref(), Some("Universal"));
    assert_eq!(windows_style(false, Some((10, 0, 19045)), false, true).as_deref(), Some("Fusion"));
    assert_eq!(windows_style(false, Some((10, 0, 22000)), true, true).as_deref(), Some("FluentWinUI3"));
    assert_eq!(windows_style(false, Some((10, 0, 22000)), true, false).as_deref(), Some("Universal"));
}

#[test]
fn windows_properties_set_the_style() {
    let mut platform = PlatformConfig::with_locales(Vec::new());
    platform.add_windows_properties(false, Some((10, 0, 22631)), true, true);
    assert!(same(&platform.get_value("gui.qt.style").unwrap(), &s("FluentWinUI3")));
    let mut chosen = PlatformConfig::with_locales(Vec::new());
    chosen.add_windows_properties(true, Some((10, 0, 22631)), true, true);
    assert!(chosen.get_value("gui.qt.style").is_none());
}
