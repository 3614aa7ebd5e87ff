use passero::config::{AppConfig, Vault};

#[test]
fn effective_store_dir_no_vaults_no_default() {
    let config = AppConfig::default();
    assert_eq!(config.effective_store_dir(), None);
}

#[test]
fn effective_store_dir_falls_back_to_password_store_dir() {
    let config = AppConfig {
        password_store_dir: Some("/home/user/.password-store".into()),
        ..Default::default()
    };
    assert_eq!(config.effective_store_dir(), Some("/home/user/.password-store"));
}

#[test]
fn effective_store_dir_active_vault_takes_priority() {
    let config = AppConfig {
        password_store_dir: Some("/home/user/.password-store".into()),
        vaults: vec![
            Vault { id: "v1".into(), name: "Work".into(), path: "/work/pass".into() },
            Vault { id: "v2".into(), name: "Personal".into(), path: "/personal/pass".into() },
        ],
        active_vault_id: Some("v2".into()),
        ..Default::default()
    };
    assert_eq!(config.effective_store_dir(), Some("/personal/pass"));
}

#[test]
fn effective_store_dir_invalid_active_id_falls_back() {
    let config = AppConfig {
        password_store_dir: Some("/default".into()),
        vaults: vec![
            Vault { id: "v1".into(), name: "Work".into(), path: "/work/pass".into() },
        ],
        active_vault_id: Some("nonexistent".into()),
        ..Default::default()
    };
    // Active vault ID doesn't match any vault, falls back to password_store_dir
    assert_eq!(config.effective_store_dir(), Some("/default"));
}

#[test]
fn effective_store_dir_invalid_active_id_no_fallback() {
    let config = AppConfig {
        vaults: vec![
            Vault { id: "v1".into(), name: "Work".into(), path: "/work/pass".into() },
        ],
        active_vault_id: Some("nonexistent".into()),
        ..Default::default()
    };
    assert_eq!(config.effective_store_dir(), None);
}

#[test]
fn effective_store_dir_no_active_id_with_vaults() {
    let config = AppConfig {
        password_store_dir: Some("/default".into()),
        vaults: vec![
            Vault { id: "v1".into(), name: "Work".into(), path: "/work/pass".into() },
        ],
        active_vault_id: None,
        ..Default::default()
    };
    // No active vault selected, falls back to password_store_dir
    assert_eq!(config.effective_store_dir(), Some("/default"));
}

#[test]
fn effective_store_dir_first_of_two_vaults_with_same_id() {
    let config = AppConfig {
        vaults: vec![
            Vault { id: "v".into(), name: "A".into(), path: "/a".into() },
            Vault { id: "v".into(), name: "B".into(), path: "/b".into() },
        ],
        active_vault_id: Some("v".into()),
        ..Default::default()
    };
    assert_eq!(config.effective_store_dir(), Some("/a"));
}

#[test]
fn default_config_has_clipboard_timeout_45() {
    let config = AppConfig::default();
    assert_eq!(config.clipboard_timeout, 45);
    assert!(config.vaults.is_empty());
    assert!(config.pat.is_none());
}
