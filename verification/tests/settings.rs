use passero::config::{
    add_vault, get_password_store_path, load_config, register_cloned_vault, remove_vault, reset_device_config,
    save_config, set_active_vault, set_device_key_fingerprint, set_store_dir, set_sync_settings, vault_id, AppConfig,
    PasseroError, StoreOp, StoreValue, Vault,
};

fn vault(id: &str, path: &str) -> Vault {
    Vault { id: id.into(), name: id.to_uppercase(), path: path.into() }
}

#[test]
fn first_vault_becomes_active() {
    let mut c = AppConfig::default();
    let v = add_vault(&mut c, "v1".into(), "Work".into(), "/w".into());
    assert_eq!(v.id, "v1");
    assert_eq!(c.active_vault_id.as_deref(), Some("v1"));
    add_vault(&mut c, "v2".into(), "Home".into(), "/h".into());
    assert_eq!(c.active_vault_id.as_deref(), Some("v1"));
    assert_eq!(c.vaults.len(), 2);
}

#[test]
fn removing_the_active_vault_activates_the_first_remaining() {
    let mut c = AppConfig { vaults: vec![vault("a", "/a"), vault("b", "/b"), vault("c", "/c")], active_vault_id: Some("b".into()), ..Default::default() };
    remove_vault(&mut c, "b");
    assert_eq!(c.vaults.iter().map(|v| v.id.as_str()).collect::<Vec<_>>(), vec!["a", "c"]);
    assert_eq!(c.active_vault_id.as_deref(), Some("a"));
    remove_vault(&mut c, "a");
    remove_vault(&mut c, "c");
    assert!(c.vaults.is_empty());
    assert_eq!(c.active_vault_id, None);
}

#[test]
fn removing_another_vault_keeps_the_active_one() {
    let mut c = AppConfig { vaults: vec![vault("a", "/a"), vault("b", "/b")], active_vault_id: Some("b".into()), ..Default::default() };
    remove_vault(&mut c, "a");
    assert_eq!(c.active_vault_id.as_deref(), Some("b"));
}

#[test]
fn add_then_remove_restores_the_vaults() {
    let mut c = AppConfig { vaults: vec![vault("a", "/a")], active_vault_id: Some("a".into()), ..Default::default() };
    add_vault(&mut c, "new".into(), "N".into(), "/n".into());
    remove_vault(&mut c, "new");
    assert_eq!(c.vaults.len(), 1);
    assert_eq!(c.vaults[0].id, "a");
    assert_eq!(c.active_vault_id.as_deref(), Some("a"));
}

#[test]
fn unknown_vault_cannot_be_activated() {
    let mut c = AppConfig { vaults: vec![vault("a", "/a")], ..Default::default() };
    match set_active_vault(&mut c, Some("zz".into())) {
        Err(PasseroError::ConfigError(m)) => assert_eq!(m, "Vault not found"),
        other => panic!("expected an error, got {other:?}"),
    }
    assert_eq!(c.active_vault_id, None);
    set_active_vault(&mut c, Some("a".into())).unwrap();
    assert_eq!(c.effective_store_dir(), Some("/a"));
    set_active_vault(&mut c, None).unwrap();
    assert_eq!(c.active_vault_id, None);
}

#[test]
fn cloned_vault_is_registered_once() {
    let mut c = AppConfig::default();
    register_cloned_vault(&mut c, "store", "/data/store", "https://g/x.git", "vault_1".into());
    assert_eq!(c.vaults.len(), 1);
    assert_eq!(c.active_vault_id.as_deref(), Some("vault_1"));
    assert_eq!(c.repo_url.as_deref(), Some("https://g/x.git"));
    assert_eq!(c.password_store_dir.as_deref(), Some("/data/store"));
    register_cloned_vault(&mut c, "other", "/data/store", "https://g/y.git", "vault_2".into());
    assert_eq!(c.vaults.len(), 1);
    assert_eq!(c.active_vault_id.as_deref(), Some("vault_1"));
    assert_eq!(c.repo_url.as_deref(), Some("https://g/y.git"));
}

#[test]
fn reset_forgets_the_device() {
    let mut c = AppConfig { vaults: vec![vault("a", "/a")], active_vault_id: Some("a".into()), password_store_dir: Some("/p".into()), repo_url: Some("u".into()), device_key_fingerprint: Some("F".into()), gpg_binary: Some("gpg2".into()), ..Default::default() };
    reset_device_config(&mut c);
    assert!(c.vaults.is_empty());
    assert_eq!(c.effective_store_dir(), None);
    assert_eq!(c.repo_url, None);
    assert_eq!(c.device_key_fingerprint, None);
    assert_eq!(c.gpg_binary.as_deref(), Some("gpg2"));
}

#[test]
fn small_setters() {
    let mut c = AppConfig::default();
    set_sync_settings(&mut c, Some("".into()));
    assert_eq!(c.repo_url, None);
    set_sync_settings(&mut c, Some("https://r".into()));
    assert_eq!(c.repo_url.as_deref(), Some("https://r"));
    assert!(set_store_dir(&mut c, "/s"));
    assert!(!set_store_dir(&mut c, "/s"));
    set_device_key_fingerprint(&mut c, "ABC");
    assert_eq!(c.device_key_fingerprint.as_deref(), Some("ABC"));
}

#[test]
fn vault_ids_are_decimal_millis() {
    assert_eq!(vault_id(0), "vault_0");
    assert_eq!(vault_id(1700000000123), "vault_1700000000123");
}

#[test]
fn store_path_defaults_to_home() {
    let c = AppConfig::default();
    assert_eq!(get_password_store_path(&c, "/home/u"), "/home/u/.password-store");
    assert_eq!(get_password_store_path(&c, "/home/u/"), "/home/u/.password-store");
    assert_eq!(get_password_store_path(&c, ""), ".password-store");
    let d = AppConfig { password_store_dir: Some("/x".into()), ..Default::default() };
    assert_eq!(get_password_store_path(&d, "/home/u"), "/x");
}

fn apply(store: &mut Vec<(String, StoreValue)>, ops: Vec<StoreOp>) {
    for op in ops {
        match op {
            StoreOp::Put(k, v) => {
                store.retain(|(key, _)| *key != k);
                store.push((k, v));
            }
            StoreOp::Delete(k) => store.retain(|(key, _)| *key != k),
        }
    }
}

#[test]
fn saved_settings_load_back_without_the_token() {
    let c = AppConfig {
        pass_binary: Some("pass".into()),
        clipboard_timeout: 12,
        vaults: vec![vault("a", "/a")],
        active_vault_id: Some("a".into()),
        pat: Some("secret-token".into()),
        repo_url: Some("https://r".into()),
        ..Default::default()
    };
    let mut store: Vec<(String, StoreValue)> = vec![("pat".into(), StoreValue::Text("old".into())), ("gpg_binary".into(), StoreValue::Text("gpg9".into()))];
    apply(&mut store, save_config(&c));
    let back = load_config(&store);
    assert_eq!(back.pass_binary.as_deref(), Some("pass"));
    assert_eq!(back.gpg_binary, None);
    assert_eq!(back.clipboard_timeout, 12);
    assert_eq!(back.vaults.len(), 1);
    assert_eq!(back.active_vault_id.as_deref(), Some("a"));
    assert_eq!(back.pat, None);
    assert_eq!(back.repo_url.as_deref(), Some("https://r"));
    assert!(store.iter().all(|(k, _)| k != "pat"));
}

#[test]
fn loading_uses_defaults_and_the_last_entry() {
    let store: Vec<(String, StoreValue)> = vec![
        ("clipboard_timeout".into(), StoreValue::Text("x".into())),
        ("pass_binary".into(), StoreValue::Number(3)),
        ("git_binary".into(), StoreValue::Text("git1".into())),
        ("git_binary".into(), StoreValue::Text("git2".into())),
        ("vaults".into(), StoreValue::Other),
    ];
    let c = load_config(&store);
    assert_eq!(c.clipboard_timeout, 45);
    assert_eq!(c.pass_binary, None);
    assert_eq!(c.git_binary.as_deref(), Some("git2"));
    assert!(c.vaults.is_empty());
    let big = vec![("clipboard_timeout".to_string(), StoreValue::Number((1u64 << 32) + 7))];
    assert_eq!(load_config(&big).clipboard_timeout, 7);
}
