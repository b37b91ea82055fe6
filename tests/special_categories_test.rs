use hyprlang::error::ConfigError;
use hyprlang::special_categories::{SpecialCategoryDescriptor, SpecialCategoryManager};

#[test]
fn keyed_instances_hold_their_own_properties() {
    let mut manager: SpecialCategoryManager<String> = SpecialCategoryManager::new();
    manager.register(SpecialCategoryDescriptor::keyed("device", "name"));
    assert_eq!(manager.create_instance("device", Some("mouse".to_string())).unwrap(), "mouse");
    manager.get_instance_mut("device", "mouse").unwrap().set("sensitivity".to_string(), "1.0".to_string());
    assert_eq!(manager.create_instance("device", Some("keyboard".to_string())).unwrap(), "keyboard");
    manager.get_instance_mut("device", "keyboard").unwrap().set("repeat_rate".to_string(), "50".to_string());

    let mut keys = manager.list_keys("device");
    keys.sort();
    assert_eq!(keys, vec!["keyboard".to_string(), "mouse".to_string()]);

    let mouse = manager.get_instance("device", "mouse").unwrap();
    assert_eq!(mouse.get("sensitivity"), Some(&"1.0".to_string()));
    assert!(!mouse.contains("repeat_rate"));
    let keyboard = manager.get_instance("device", "keyboard").unwrap();
    assert_eq!(keyboard.get("repeat_rate"), Some(&"50".to_string()));
    assert!(!keyboard.contains("sensitivity"));
    assert_eq!(manager.get_all_instances("device").len(), 2);
}

#[test]
fn keyed_category_needs_a_key() {
    let mut manager: SpecialCategoryManager<i64> = SpecialCategoryManager::new();
    manager.register(SpecialCategoryDescriptor::keyed("device", "name"));
    assert!(matches!(manager.create_instance("device", None), Err(ConfigError::Custom { .. })));
}

#[test]
fn static_category_has_one_key() {
    let mut manager: SpecialCategoryManager<i64> = SpecialCategoryManager::new();
    manager.register(SpecialCategoryDescriptor::static_category("general"));
    assert_eq!(manager.create_instance("general", None).unwrap(), "static");
    assert_eq!(manager.create_instance("general", None).unwrap(), "static");
    assert_eq!(manager.list_keys("general"), vec!["static".to_string()]);
    assert!(matches!(
        manager.create_instance("general", Some("x".to_string())),
        Err(ConfigError::Custom { .. })
    ));
}

#[test]
fn anonymous_keys_count_up() {
    let mut manager: SpecialCategoryManager<i64> = SpecialCategoryManager::new();
    manager.register(SpecialCategoryDescriptor::anonymous("rule"));
    assert_eq!(manager.create_instance("rule", None).unwrap(), "anonymous_0");
    assert_eq!(manager.create_instance("rule", None).unwrap(), "anonymous_1");
    assert_eq!(manager.create_instance("rule", None).unwrap(), "anonymous_2");
    assert!(matches!(
        manager.create_instance("rule", Some("k".to_string())),
        Err(ConfigError::Custom { .. })
    ));
    manager.clear_instances();
    assert_eq!(manager.create_instance("rule", None).unwrap(), "anonymous_0");
}

#[test]
fn defaults_seed_new_instances() {
    let mut manager: SpecialCategoryManager<i64> = SpecialCategoryManager::new();
    manager.register(
        SpecialCategoryDescriptor::keyed("monitor", "name").with_default("scale", 1).with_default("rate", 60),
    );
    manager.create_instance("monitor", Some("DP-1".to_string())).unwrap();
    let inst = manager.get_instance("monitor", "DP-1").unwrap();
    assert_eq!(inst.get("scale"), Some(&1));
    assert_eq!(inst.get("rate"), Some(&60));
    assert_eq!(inst.key, Some("DP-1".to_string()));
}

#[test]
fn unknown_category_and_instance() {
    let mut manager: SpecialCategoryManager<i64> = SpecialCategoryManager::new();
    match manager.create_instance("nope", None) {
        Err(ConfigError::CategoryNotFound { category, key }) => {
            assert_eq!(category, "nope");
            assert_eq!(key, None);
        }
        other => panic!("unexpected: {:?}", other.map(|_| ())),
    }
    manager.register(SpecialCategoryDescriptor::keyed("device", "name"));
    manager.create_instance("device", Some("mouse".to_string())).unwrap();
    match manager.get_instance("device", "pad") {
        Err(ConfigError::CategoryNotFound { key, .. }) => assert_eq!(key, Some("pad".to_string())),
        _ => panic!("expected a missing instance"),
    }
    assert!(manager.remove_instance("device", "pad").is_err());
    assert!(manager.remove_instance("other", "pad").is_err());
    assert!(manager.remove_instance("device", "mouse").is_ok());
    assert!(!manager.instance_exists("device", "mouse"));
}
