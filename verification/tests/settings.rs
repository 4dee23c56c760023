use file_tunnel::config::Config;

fn server_config() -> Config {
    Config::new(None, None, Some("server".to_string()))
}

#[test]
fn fresh_store_uses_defaults() {
    let c = server_config();
    assert_eq!(c.work_dir, "./work_dir");
    assert_eq!(c.config_path, "./work_dir/.ft.db");
    assert_eq!(
        c.keys().clone(),
        vec![
            "path".to_string(),
            "tunnel_host".to_string(),
            "share_key".to_string(),
            "password".to_string()
        ]
    );
    let client = Config::new(
        Some("/tmp/wd".to_string()),
        Some("client.db".to_string()),
        Some("client".to_string()),
    );
    assert_eq!(client.config_path, "/tmp/wd/client.db");
    assert_eq!(client.keys().len(), 5);
    assert_eq!(client.keys()[4], "client_id");
    let bare = Config::new(None, None, None);
    assert!(bare.keys().is_empty());
}

#[test]
fn set_caches_and_queues_the_write() {
    let mut c = server_config();
    c.set("path".to_string(), "/srv/share".to_string(), None);
    assert_eq!(c.get_key(&"path".to_string()), Some("/srv/share".to_string()));
    assert_eq!(c.get_key(&"tunnel_host".to_string()), None);
    let writes = c.take_dirty();
    assert_eq!(writes, vec![("path".to_string(), "/srv/share".to_string(), 0)]);
    assert!(c.take_dirty().is_empty());
    // setting the same value again queues nothing
    c.set("path".to_string(), "/srv/share".to_string(), None);
    assert!(c.take_dirty().is_empty());
    // a changed value queues again, with its auto-generated mark
    c.set("path".to_string(), "/elsewhere".to_string(), Some(1));
    assert_eq!(c.get_key(&"path".to_string()), Some("/elsewhere".to_string()));
    assert_eq!(c.take_dirty(), vec![("path".to_string(), "/elsewhere".to_string(), 1)]);
}

#[test]
fn cache_insert_feeds_store_reads_back() {
    let mut c = server_config();
    assert_eq!(c.get_key(&"tunnel_host".to_string()), None);
    c.cache_insert(&"tunnel_host".to_string(), &"host:8809".to_string());
    assert_eq!(c.get_key(&"tunnel_host".to_string()), Some("host:8809".to_string()));
    assert!(c.take_dirty().is_empty());
}

#[test]
fn get_keys_splits_cached_and_missing() {
    let mut c = server_config();
    c.set("path".to_string(), "/srv".to_string(), None);
    let (found, missing) = c.get_keys(None);
    // the password never shows in an unrestricted listing
    assert_eq!(found, vec![("path".to_string(), "/srv".to_string())]);
    assert_eq!(
        missing,
        vec!["tunnel_host".to_string(), "share_key".to_string()]
    );
    let (found2, missing2) = c.get_keys(Some(vec![
        "password".to_string(),
        "path".to_string(),
        "no_such_name".to_string(),
    ]));
    // an explicit request may name the password, but never a disallowed name
    assert_eq!(found2, vec![("path".to_string(), "/srv".to_string())]);
    assert_eq!(missing2, vec!["password".to_string()]);
}
