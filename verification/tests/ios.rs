use passero::ios::{device_key_status, generate_random_password, password_seed, vault_name_from_url, IosState};

#[test]
fn password_has_requested_length_and_pool() {
    let pw = generate_random_password(32, false, 12345);
    assert_eq!(pw.chars().count(), 32);
    assert!(pw.chars().all(|c| c.is_ascii_alphanumeric()));
    let empty = generate_random_password(0, true, 1);
    assert_eq!(empty, "");
}

#[test]
fn password_follows_the_xorshift_generator() {
    let mut s: u64 = 1;
    let pool: Vec<char> = "abcdefghijklmnopqrstuvwxyzABCDEFGHIJKLMNOPQRSTUVWXYZ0123456789!@#$%^&*()-_=+[]{};:,.<>?".chars().collect();
    let mut expected = String::new();
    for _ in 0..5 {
        s ^= s << 13;
        s ^= s >> 7;
        s ^= s << 17;
        expected.push(pool[(s % pool.len() as u64) as usize]);
    }
    assert_eq!(generate_random_password(5, true, 1), expected);
}

#[test]
fn seed_from_clock_or_constant() {
    assert_eq!(password_seed(Some(5)), 5);
    assert_eq!(password_seed(Some((1u128 << 64) + 9)), 9);
    assert_eq!(password_seed(None), 0x9e3779b97f4a7c15);
}

#[test]
fn vault_names_from_urls() {
    assert_eq!(vault_name_from_url("https://github.com/me/pass-store.git"), "pass-store");
    assert_eq!(vault_name_from_url("https://github.com/me/pass-store/"), "pass-store");
    assert_eq!(vault_name_from_url("https://github.com/me/x.git.git"), "x");
    assert_eq!(vault_name_from_url("https://github.com/me/.git"), "Vault");
    assert_eq!(vault_name_from_url(""), "Vault");
    assert_eq!(vault_name_from_url("plain"), "plain");
}

#[test]
fn device_status_and_state() {
    let s = device_key_status(Some("ABC".into()));
    assert!(s.has_key);
    assert!(!device_key_status(None).has_key);
    let mut st = IosState::default();
    st.load_key(vec![1, 2], Some("tok".into()));
    assert_eq!(st.token.as_deref(), Some("tok"));
    st.load_key(vec![3], None);
    assert_eq!(st.token.as_deref(), Some("tok"));
    st.reset();
    assert!(st.key_armored.is_none());
    assert!(st.token.is_none());
}
