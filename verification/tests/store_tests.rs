//! Tests of the in-memory store operations.

use lino_env::LinoEnv;

#[test]
fn test_get_last_instance() {
    let mut env = LinoEnv::new("get_last_instance.lenv");
    env.add("API_KEY", "value1");
    env.add("API_KEY", "value2");
    env.add("API_KEY", "value3");

    assert_eq!(env.get("API_KEY"), Some("value3".to_string()));
}

#[test]
fn test_get_nonexistent() {
    let env = LinoEnv::new("get_nonexistent.lenv");
    assert_eq!(env.get("NON_EXISTENT"), None);
}

#[test]
fn test_get_all_instances() {
    let mut env = LinoEnv::new("get_all_instances.lenv");
    env.add("API_KEY", "value1");
    env.add("API_KEY", "value2");
    env.add("API_KEY", "value3");

    assert_eq!(env.get_all("API_KEY"), vec!["value1", "value2", "value3"]);
}

#[test]
fn test_get_all_nonexistent() {
    let env = LinoEnv::new("get_all_nonexistent.lenv");
    assert!(env.get_all("NON_EXISTENT").is_empty());
}

#[test]
fn test_set_replaces_all() {
    let mut env = LinoEnv::new("set_replaces_all.lenv");
    env.add("API_KEY", "value1");
    env.add("API_KEY", "value2");
    env.set("API_KEY", "new_value");

    assert_eq!(env.get("API_KEY"), Some("new_value".to_string()));
    assert_eq!(env.get_all("API_KEY"), vec!["new_value"]);
}

#[test]
fn test_add_duplicates() {
    let mut env = LinoEnv::new("add_duplicates.lenv");
    env.add("KEY", "value1");
    env.add("KEY", "value2");
    env.add("KEY", "value3");

    assert_eq!(env.get_all("KEY"), vec!["value1", "value2", "value3"]);
}

#[test]
fn test_has_existing() {
    let mut env = LinoEnv::new("has_existing.lenv");
    env.set("KEY", "value");

    assert!(env.has("KEY"));
}

#[test]
fn test_has_nonexistent() {
    let env = LinoEnv::new("has_nonexistent.lenv");
    assert!(!env.has("NON_EXISTENT"));
}

#[test]
fn test_delete_all_instances() {
    let mut env = LinoEnv::new("delete_all_instances.lenv");
    env.add("KEY", "value1");
    env.add("KEY", "value2");
    env.delete("KEY");

    assert!(!env.has("KEY"));
    assert_eq!(env.get("KEY"), None);
}

#[test]
fn test_delete_absent_is_noop() {
    let mut env = LinoEnv::new("delete_absent.lenv");
    env.set("KEY", "value");
    env.delete("OTHER");

    assert!(env.has("KEY"));
    assert!(!env.has("OTHER"));
    assert_eq!(env.get_all("KEY"), vec!["value"]);
}

#[test]
fn test_keys() {
    let mut env = LinoEnv::new("keys.lenv");
    env.set("KEY1", "value1");
    env.set("KEY2", "value2");
    env.set("KEY3", "value3");

    let keys = env.keys();
    assert!(keys.contains(&"KEY1".to_string()));
    assert!(keys.contains(&"KEY2".to_string()));
    assert!(keys.contains(&"KEY3".to_string()));
    assert_eq!(keys.len(), 3);
}

#[test]
fn test_to_hash_map() {
    let mut env = LinoEnv::new("to_hash_map.lenv");
    env.add("KEY1", "value1a");
    env.add("KEY1", "value1b");
    env.set("KEY2", "value2");

    let obj = env.to_hash_map();
    let lookup = |key: &str| {
        obj.iter()
            .find(|pair| pair.0 == key)
            .map(|pair| pair.1.clone())
    };
    assert_eq!(lookup("KEY1"), Some("value1b".to_string()));
    assert_eq!(lookup("KEY2"), Some("value2".to_string()));
}

#[test]
fn test_to_hash_map_one_pair_per_key() {
    let mut env = LinoEnv::new("to_hash_map_len.lenv");
    env.add("A", "1");
    env.add("A", "2");
    env.add("B", "3");

    let obj = env.to_hash_map();
    assert_eq!(obj.len(), 2);
}

#[test]
fn test_file_path_is_kept() {
    let env = LinoEnv::new("some/dir/config.lenv");
    assert_eq!(env.file_path().as_str(), "some/dir/config.lenv");
}

#[test]
fn test_clone_copies_state() {
    let mut env = LinoEnv::new("clone.lenv");
    env.set("K", "v");
    let mut copy = env.clone();
    copy.set("K", "w");

    assert_eq!(env.get("K"), Some("v".to_string()));
    assert_eq!(copy.get("K"), Some("w".to_string()));
    assert_eq!(copy.file_path().as_str(), "clone.lenv");
}

#[test]
fn test_set_after_adds_leaves_single_value() {
    let mut env = LinoEnv::new("set_after_adds.lenv");
    env.add("K", "a");
    env.add("K", "b");
    env.add("K", "c");
    env.set("K", "v");

    assert_eq!(env.get_all("K"), vec!["v"]);
    assert_eq!(env.get("K"), Some("v".to_string()));
}
