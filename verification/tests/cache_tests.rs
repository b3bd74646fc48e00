use rudish::cache::Cache;

#[test]
fn put_then_get_returns_value() {
    let mut cache = Cache::new();
    cache.put("users", "alice", "42");
    assert_eq!(cache.get("users", "alice"), Ok("42".to_string()));
}

#[test]
fn put_keeps_the_first_value() {
    let mut cache = Cache::new();
    cache.put("users", "alice", "42");
    cache.put("users", "alice", "43");
    assert_eq!(cache.get("users", "alice"), Ok("42".to_string()));
}

#[test]
fn get_in_missing_topic_names_the_topic() {
    let cache = Cache::new();
    assert_eq!(cache.get("users", "alice"), Err("Topic not found: users".to_string()));
}

#[test]
fn get_of_missing_key_names_the_topic() {
    let mut cache = Cache::new();
    cache.put("users", "alice", "42");
    assert_eq!(cache.get("users", "bob"), Err("Value not found: users".to_string()));
}

#[test]
fn put_leaves_other_keys_and_topics() {
    let mut cache = Cache::new();
    cache.put("users", "alice", "42");
    cache.put("users", "bob", "7");
    cache.put("groups", "alice", "admins");
    assert_eq!(cache.get("users", "alice"), Ok("42".to_string()));
    assert_eq!(cache.get("users", "bob"), Ok("7".to_string()));
    assert_eq!(cache.get("groups", "alice"), Ok("admins".to_string()));
}

#[test]
fn delete_then_get_fails_and_topic_stays() {
    let mut cache = Cache::new();
    cache.put("users", "alice", "42");
    assert_eq!(cache.delete("users", "alice"), Ok(()));
    assert_eq!(cache.get("users", "alice"), Err("Value not found: users".to_string()));
}

#[test]
fn delete_in_missing_topic_fails() {
    let mut cache = Cache::new();
    cache.put("users", "alice", "42");
    assert_eq!(cache.delete("groups", "alice"), Err("Topic 'groups' not found".to_string()));
    assert_eq!(cache.get("users", "alice"), Ok("42".to_string()));
}

#[test]
fn delete_of_missing_key_succeeds() {
    let mut cache = Cache::new();
    cache.put("users", "alice", "42");
    assert_eq!(cache.delete("users", "bob"), Ok(()));
    assert_eq!(cache.get("users", "alice"), Ok("42".to_string()));
}

#[test]
fn delete_twice_is_delete_once() {
    let mut cache = Cache::new();
    cache.put("users", "alice", "42");
    cache.put("users", "bob", "7");
    assert_eq!(cache.delete("users", "alice"), Ok(()));
    assert_eq!(cache.delete("users", "alice"), Ok(()));
    assert_eq!(cache.get("users", "alice"), Err("Value not found: users".to_string()));
    assert_eq!(cache.get("users", "bob"), Ok("7".to_string()));
}

#[test]
fn delete_leaves_other_keys() {
    let mut cache = Cache::new();
    cache.put("users", "alice", "42");
    cache.put("users", "bob", "7");
    assert_eq!(cache.delete("users", "bob"), Ok(()));
    assert_eq!(cache.get("users", "alice"), Ok("42".to_string()));
}

#[test]
fn put_after_delete_stores_again() {
    let mut cache = Cache::new();
    cache.put("users", "alice", "42");
    assert_eq!(cache.delete("users", "alice"), Ok(()));
    cache.put("users", "alice", "43");
    assert_eq!(cache.get("users", "alice"), Ok("43".to_string()));
}
