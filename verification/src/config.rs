use vstd::prelude::*;

use crate::text::{chars_of, decimal, push_decimal, same_chars, string_of};

verus! {

/// A password store known to the application.
#[derive(Debug)]
pub struct Vault {
    pub id: String,
    pub name: String,
    pub path: String,
}

/// What a `Vault` holds, as character sequences.
pub struct VaultView {
    pub id: Seq<char>,
    pub name: Seq<char>,
    pub path: Seq<char>,
}

impl View for Vault {
    type V = VaultView;

    open spec fn view(&self) -> VaultView {
        VaultView { id: self.id@, name: self.name@, path: self.path@ }
    }
}

/// The application's settings.
#[derive(Debug)]
pub struct AppConfig {
    pub pass_binary: Option<String>,
    pub gpg_binary: Option<String>,
    pub git_binary: Option<String>,
    pub password_store_dir: Option<String>,
    pub clipboard_timeout: u32,
    pub vaults: Vec<Vault>,
    pub active_vault_id: Option<String>,
    pub device_key_fingerprint: Option<String>,
    pub pat: Option<String>,
    pub repo_url: Option<String>,
}

/// What an `AppConfig` holds, as character sequences.
pub struct ConfigView {
    pub pass_binary: Option<Seq<char>>,
    pub gpg_binary: Option<Seq<char>>,
    pub git_binary: Option<Seq<char>>,
    pub password_store_dir: Option<Seq<char>>,
    pub clipboard_timeout: u32,
    pub vaults: Seq<VaultView>,
    pub active_vault_id: Option<Seq<char>>,
    pub device_key_fingerprint: Option<Seq<char>>,
    pub pat: Option<Seq<char>>,
    pub repo_url: Option<Seq<char>>,
}

/// The text an optional string holds.
pub open spec fn opt_text(o: Option<String>) -> Option<Seq<char>> {
    match o {
        Some(s) => Some(s@),
        None => None,
    }
}

/// The views of a sequence of vaults.
pub open spec fn vault_views(vs: Seq<Vault>) -> Seq<VaultView> {
    Seq::new(vs.len(), |i: int| vs[i]@)
}

impl View for AppConfig {
    type V = ConfigView;

    open spec fn view(&self) -> ConfigView {
        ConfigView {
            pass_binary: opt_text(self.pass_binary),
            gpg_binary: opt_text(self.gpg_binary),
            git_binary: opt_text(self.git_binary),
            password_store_dir: opt_text(self.password_store_dir),
            clipboard_timeout: self.clipboard_timeout,
            vaults: vault_views(self.vaults@),
            active_vault_id: opt_text(self.active_vault_id),
            device_key_fingerprint: opt_text(self.device_key_fingerprint),
            pat: opt_text(self.pat),
            repo_url: opt_text(self.repo_url),
        }
    }
}

/// The settings of a fresh installation.
pub open spec fn default_config() -> ConfigView {
    ConfigView {
        pass_binary: None,
        gpg_binary: None,
        git_binary: None,
        password_store_dir: None,
        clipboard_timeout: 45,
        vaults: Seq::empty(),
        active_vault_id: None,
        device_key_fingerprint: None,
        pat: None,
        repo_url: None,
    }
}

impl Default for AppConfig {
    fn default() -> (c: Self)
        ensures
            c@ == default_config(),
    {
        let c = AppConfig {
            pass_binary: None,
            gpg_binary: None,
            git_binary: None,
            password_store_dir: None,
            clipboard_timeout: 45,
            vaults: Vec::new(),
            active_vault_id: None,
            device_key_fingerprint: None,
            pat: None,
            repo_url: None,
        };
        assert(vault_views(c.vaults@) =~= Seq::<VaultView>::empty());
        c
    }
}

/// The index of the first vault with identifier `id`, or the number of
/// vaults when none has it.
pub open spec fn vault_index(vs: Seq<VaultView>, id: Seq<char>) -> int
    decreases vs.len(),
{
    if vs.len() == 0 {
        0
    } else {
        let k = vault_index(vs.drop_last(), id);
        if k < vs.len() - 1 {
            k
        } else if vs.last().id == id {
            vs.len() - 1
        } else {
            vs.len() as int
        }
    }
}

/// `vault_index` gives the first vault with the id, or the length.
pub proof fn lemma_vault_index(vs: Seq<VaultView>, id: Seq<char>)
    ensures
        0 <= vault_index(vs, id) <= vs.len(),
        vault_index(vs, id) < vs.len() ==> vs[vault_index(vs, id)].id == id,
        forall|j: int| 0 <= j < vault_index(vs, id) ==> (#[trigger] vs[j]).id != id,
    decreases vs.len(),
{
    if vs.len() > 0 {
        lemma_vault_index(vs.drop_last(), id);
        let k = vault_index(vs.drop_last(), id);
        assert forall|j: int| 0 <= j < vault_index(vs, id) implies (#[trigger] vs[j]).id != id by {
            if j < vs.len() - 1 {
                assert(vs[j] == vs.drop_last()[j]);
            }
        }
    }
}

/// The store directory in effect: the path of the active vault when a vault
/// has the active identifier (the first such vault), else the configured
/// store directory.
pub open spec fn effective_dir(c: ConfigView) -> Option<Seq<char>> {
    match c.active_vault_id {
        Some(a) => if vault_index(c.vaults, a) < c.vaults.len() {
            Some(c.vaults[vault_index(c.vaults, a)].path)
        } else {
            c.password_store_dir
        },
        None => c.password_store_dir,
    }
}

/// The position of the first vault of `vaults` with the given identifier.
fn find_vault(vaults: &Vec<Vault>, id: &Vec<char>) -> (k: usize)
    ensures
        k == vault_index(vault_views(vaults@), id@),
{
    let ghost vs = vault_views(vaults@);
    proof {
        lemma_vault_index(vs, id@);
    }
    let mut k: usize = 0;
    while k < vaults.len()
        invariant
            vs == vault_views(vaults@),
            k <= vaults.len(),
            forall|j: int| 0 <= j < k ==> (#[trigger] vs[j]).id != id@,
            0 <= vault_index(vs, id@) <= vs.len(),
            vault_index(vs, id@) < vs.len() ==> vs[vault_index(vs, id@)].id == id@,
            forall|j: int| 0 <= j < vault_index(vs, id@) ==> (#[trigger] vs[j]).id != id@,
        decreases vaults.len() - k,
    {
        let vid = chars_of(vaults[k].id.as_str());
        if same_chars(&vid, id) {
            assert(vs[k as int].id == id@);
            return k;
        }
        k = k + 1;
    }
    k
}

impl AppConfig {
    /// The store directory in effect: the active vault's path takes
    /// priority, then `password_store_dir`, then none (the caller supplies
    /// the default).
    pub fn effective_store_dir(&self) -> (dir: Option<&str>)
        ensures
            match dir {
                Some(d) => effective_dir(self@) == Some(d@),
                None => effective_dir(self@) is None,
            },
    {
        if let Some(active_id) = &self.active_vault_id {
            let a = chars_of(active_id.as_str());
            let k = find_vault(&self.vaults, &a);
            if k < self.vaults.len() {
                return Some(self.vaults[k].path.as_str());
            }
        }
        match &self.password_store_dir {
            Some(d) => Some(d.as_str()),
            None => None,
        }
    }
}


/// What goes wrong in the settings and key commands.
#[derive(Debug)]
pub enum PasseroError {
    ConfigError(String),
    GpgError(String),
    PassError(String),
    GitError(String),
    TotpError(String),
}

/// A copy of the vault.
pub fn copy_vault(v: &Vault) -> (c: Vault)
    ensures
        c@ == v@,
{
    Vault { id: v.id.clone(), name: v.name.clone(), path: v.path.clone() }
}

/// The settings with one more vault, which becomes the active one when it
/// is the first.
pub open spec fn vault_added(c: ConfigView, v: VaultView) -> ConfigView {
    ConfigView {
        vaults: c.vaults.push(v),
        active_vault_id: if c.vaults.len() == 0 {
            Some(v.id)
        } else {
            c.active_vault_id
        },
        ..c
    }
}

/// Adds the vault `id` (named `name`, at `path`) and gives it back; the first
/// vault becomes the active one.
pub fn add_vault(config: &mut AppConfig, id: String, name: String, path: String) -> (v: Vault)
    ensures
        v@ == (VaultView { id: id@, name: name@, path: path@ }),
        final(config)@ == vault_added(old(config)@, v@),
{
    let vault = Vault { id, name, path };
    let ghost before = config.vaults@;
    config.vaults.push(copy_vault(&vault));
    assert(vault_views(config.vaults@) =~= vault_views(before).push(vault@));
    if config.vaults.len() == 1 {
        config.active_vault_id = Some(vault.id.clone());
    }
    vault
}

/// The vaults without those with identifier `id`.
pub open spec fn without_vault(vs: Seq<VaultView>, id: Seq<char>) -> Seq<VaultView> {
    vs.filter(|v: VaultView| v.id != id)
}

/// The settings without the vaults `id`; when one of them was active, the
/// first remaining vault (if any) becomes active.
pub open spec fn vault_removed(c: ConfigView, id: Seq<char>) -> ConfigView {
    let rest = without_vault(c.vaults, id);
    ConfigView {
        vaults: rest,
        active_vault_id: if c.active_vault_id == Some(id) {
            if rest.len() > 0 {
                Some(rest[0].id)
            } else {
                None
            }
        } else {
            c.active_vault_id
        },
        ..c
    }
}

/// Removes the vaults with identifier `id`.
pub fn remove_vault(config: &mut AppConfig, id: &str)
    ensures
        final(config)@ == vault_removed(old(config)@, id@),
{
    let key = chars_of(id);
    let ghost vs = vault_views(config.vaults@);
    let mut kept: Vec<Vault> = Vec::new();
    for k in 0..config.vaults.len()
        invariant
            vs == vault_views(config.vaults@),
            vault_views(kept@) == without_vault(vs.take(k as int), id@),
            key@ == id@,
    {
        let vid = chars_of(config.vaults[k].id.as_str());
        assert(vs.take(k + 1).drop_last() =~= vs.take(k as int));
        reveal_with_fuel(Seq::filter, 1);
        if !same_chars(&vid, &key) {
            let c = copy_vault(&config.vaults[k]);
            let ghost before = vault_views(kept@);
            kept.push(c);
            assert(vault_views(kept@) =~= before.push(c@));
        }
    }
    assert(vs.take(config.vaults.len() as int) =~= vs);
    config.vaults = kept;
    let was_active = match &config.active_vault_id {
        Some(a) => same_chars(&chars_of(a.as_str()), &key),
        None => false,
    };
    if was_active {
        if config.vaults.len() > 0 {
            config.active_vault_id = Some(config.vaults[0].id.clone());
        } else {
            config.active_vault_id = None;
        }
    }
}

/// Whether some vault has identifier `id`.
pub open spec fn has_vault(vs: Seq<VaultView>, id: Seq<char>) -> bool {
    exists|j: int| 0 <= j < vs.len() && (#[trigger] vs[j]).id == id
}

/// `id` names a vault that is not there.
pub open spec fn unknown_vault(vs: Seq<VaultView>, id: Option<Seq<char>>) -> bool {
    match id {
        Some(i) => !has_vault(vs, i),
        None => false,
    }
}

/// Makes `id` the active vault (or none); an identifier that no vault has is
/// refused with `ConfigError("Vault not found")` and changes nothing.
pub fn set_active_vault(config: &mut AppConfig, id: Option<String>) -> (r: Result<(), PasseroError>)
    ensures
        unknown_vault(old(config)@.vaults, opt_text(id)) ==> (r matches Err(
            PasseroError::ConfigError(m),
        ) && m@ == "Vault not found"@ && final(config)@ == old(config)@),
        !unknown_vault(old(config)@.vaults, opt_text(id)) ==> r is Ok && final(config)@ == (
        ConfigView { active_vault_id: opt_text(id), ..old(config)@ }),
{
    if let Some(vault_id) = &id {
        let key = chars_of(vault_id.as_str());
        let k = find_vault(&config.vaults, &key);
        proof {
            lemma_vault_index(vault_views(config.vaults@), key@);
        }
        if k == config.vaults.len() {
            return Err(PasseroError::ConfigError("Vault not found".to_owned()));
        }
    }
    config.active_vault_id = id;
    Ok(())
}


/// The position of the first vault with path `path`, or the number of vaults.
pub open spec fn vault_index_by_path(vs: Seq<VaultView>, path: Seq<char>) -> int
    decreases vs.len(),
{
    if vs.len() == 0 {
        0
    } else {
        let k = vault_index_by_path(vs.drop_last(), path);
        if k < vs.len() - 1 {
            k
        } else if vs.last().path == path {
            vs.len() - 1
        } else {
            vs.len() as int
        }
    }
}

/// `vault_index_by_path` gives the first vault at the path, or the length.
pub proof fn lemma_vault_index_by_path(vs: Seq<VaultView>, path: Seq<char>)
    ensures
        0 <= vault_index_by_path(vs, path) <= vs.len(),
        vault_index_by_path(vs, path) < vs.len() ==> vs[vault_index_by_path(vs, path)].path == path,
        forall|j: int| 0 <= j < vault_index_by_path(vs, path) ==> (#[trigger] vs[j]).path != path,
    decreases vs.len(),
{
    if vs.len() > 0 {
        lemma_vault_index_by_path(vs.drop_last(), path);
        assert forall|j: int| 0 <= j < vault_index_by_path(vs, path) implies (#[trigger] vs[j]).path != path by {
            if j < vs.len() - 1 {
                assert(vs[j] == vs.drop_last()[j]);
            }
        }
    }
}

/// The settings after a store was cloned from `url` into `path`: the
/// repository and store directory are recorded, the vault at `path` (a new
/// one with identifier `fresh_id` and name `name` when there is none) becomes
/// the active one.
pub open spec fn cloned_vault_registered(
    c: ConfigView,
    name: Seq<char>,
    path: Seq<char>,
    url: Seq<char>,
    fresh_id: Seq<char>,
) -> ConfigView {
    let k = vault_index_by_path(c.vaults, path);
    let vaults = if k < c.vaults.len() {
        c.vaults
    } else {
        c.vaults.push(VaultView { id: fresh_id, name, path })
    };
    let id = if k < c.vaults.len() {
        c.vaults[k].id
    } else {
        fresh_id
    };
    ConfigView {
        repo_url: Some(url),
        password_store_dir: Some(path),
        vaults,
        active_vault_id: Some(id),
        ..c
    }
}

/// Records a store cloned from `url` into `path` (see
/// `cloned_vault_registered`).
pub fn register_cloned_vault(config: &mut AppConfig, name: &str, path: &str, url: &str, fresh_id: String)
    ensures
        final(config)@ == cloned_vault_registered(old(config)@, name@, path@, url@, fresh_id@),
{
    config.repo_url = Some(url.to_owned());
    config.password_store_dir = Some(path.to_owned());
    let p = chars_of(path);
    let ghost vs = vault_views(config.vaults@);
    proof {
        lemma_vault_index_by_path(vs, path@);
    }
    let mut k: usize = 0;
    while k < config.vaults.len()
        invariant
            vs == vault_views(config.vaults@),
            p@ == path@,
            k <= config.vaults.len(),
            forall|j: int| 0 <= j < k ==> (#[trigger] vs[j]).path != path@,
            0 <= vault_index_by_path(vs, path@) <= vs.len(),
            vault_index_by_path(vs, path@) < vs.len() ==> vs[vault_index_by_path(vs, path@)].path == path@,
            forall|j: int| 0 <= j < vault_index_by_path(vs, path@) ==> (#[trigger] vs[j]).path != path@,
        ensures
            k <= config.vaults.len(),
            k < config.vaults.len() ==> vs[k as int].path == path@,
            forall|j: int| 0 <= j < k ==> (#[trigger] vs[j]).path != path@,
        decreases config.vaults.len() - k,
    {
        if same_chars(&chars_of(config.vaults[k].path.as_str()), &p) {
            assert(vs[k as int].path == path@);
            break;
        }
        k = k + 1;
    }
    proof {
        let m = vault_index_by_path(vs, path@);
        if (k as int) < m {
            assert(vs[k as int].path != path@);
        } else if m < k {
            assert(vs[m].path != path@);
        }
    }
    let id = if k < config.vaults.len() {
        config.vaults[k].id.clone()
    } else {
        let v = Vault { id: fresh_id, name: name.to_owned(), path: path.to_owned() };
        let id = v.id.clone();
        let ghost before = vault_views(config.vaults@);
        config.vaults.push(v);
        assert(vault_views(config.vaults@) =~= before.push(v@));
        id
    };
    config.active_vault_id = Some(id);
}

/// The settings after the device was reset: no key, repository, vaults,
/// active vault or store directory.
pub open spec fn device_reset(c: ConfigView) -> ConfigView {
    ConfigView {
        device_key_fingerprint: None,
        repo_url: None,
        vaults: Seq::empty(),
        active_vault_id: None,
        password_store_dir: None,
        ..c
    }
}

/// Forgets the device's key, repository, vaults and store directory.
pub fn reset_device_config(config: &mut AppConfig)
    ensures
        final(config)@ == device_reset(old(config)@),
{
    config.device_key_fingerprint = None;
    config.repo_url = None;
    config.vaults = Vec::new();
    config.active_vault_id = None;
    config.password_store_dir = None;
    assert(vault_views(config.vaults@) =~= Seq::<VaultView>::empty());
}

/// Records the repository to sync with; an empty URL records none.
pub fn set_sync_settings(config: &mut AppConfig, repo_url: Option<String>)
    ensures
        final(config)@ == (ConfigView {
            repo_url: match opt_text(repo_url) {
                Some(u) => if u.len() > 0 {
                    Some(u)
                } else {
                    None
                },
                None => None,
            },
            ..old(config)@
        }),
{
    config.repo_url = match repo_url {
        Some(u) => if u.as_str().is_empty() {
            None
        } else {
            Some(u)
        },
        None => None,
    };
}

/// Records `path` as the store directory; tells whether that changed the
/// settings (and they need saving).
pub fn set_store_dir(config: &mut AppConfig, path: &str) -> (changed: bool)
    ensures
        changed == (old(config)@.password_store_dir != Some(path@)),
        final(config)@ == (ConfigView { password_store_dir: Some(path@), ..old(config)@ }),
{
    let same = match &config.password_store_dir {
        Some(d) => same_chars(&chars_of(d.as_str()), &chars_of(path)),
        None => false,
    };
    if !same {
        config.password_store_dir = Some(path.to_owned());
    }
    !same
}

/// Records the fingerprint of the device's key.
pub fn set_device_key_fingerprint(config: &mut AppConfig, fingerprint: &str)
    ensures
        final(config)@ == (ConfigView { device_key_fingerprint: Some(fingerprint@), ..old(config)@ }),
{
    config.device_key_fingerprint = Some(fingerprint.to_owned());
}

/// The identifier of a vault created at `millis` milliseconds after the
/// epoch: `vault_` and the number.
pub fn vault_id(millis: u128) -> (id: String)
    ensures
        id@ == seq!['v', 'a', 'u', 'l', 't', '_'] + decimal(millis as nat),
{
    let mut out = vec!['v', 'a', 'u', 'l', 't', '_'];
    push_decimal(&mut out, millis);
    string_of(&out)
}

/// The store path in effect, or `.password-store` in the home directory.
pub open spec fn store_path(effective: Option<Seq<char>>, home: Seq<char>) -> Seq<char> {
    match effective {
        Some(d) => d,
        None => if home.len() == 0 {
            seq!['.', 'p', 'a', 's', 's', 'w', 'o', 'r', 'd', '-', 's', 't', 'o', 'r', 'e']
        } else if home.last() == '/' {
            home + seq!['.', 'p', 'a', 's', 's', 'w', 'o', 'r', 'd', '-', 's', 't', 'o', 'r', 'e']
        } else {
            home.push('/') + seq!['.', 'p', 'a', 's', 's', 'w', 'o', 'r', 'd', '-', 's', 't', 'o', 'r', 'e']
        },
    }
}

/// The password store path: the store directory in effect, or
/// `.password-store` joined to the home directory `home` (empty when there is
/// none).
pub fn get_password_store_path(config: &AppConfig, home: &str) -> (path: String)
    ensures
        path@ == store_path(effective_dir(config@), home@),
{
    match config.effective_store_dir() {
        Some(d) => d.to_owned(),
        None => {
            let h = chars_of(home);
            let tail = vec!['.', 'p', 'a', 's', 's', 'w', 'o', 'r', 'd', '-', 's', 't', 'o', 'r', 'e'];
            let mut out: Vec<char> = h.clone();
            if h.len() > 0 && h[h.len() - 1] != '/' {
                out.push('/');
            }
            let ghost start = out@;
            for k in 0..tail.len()
                invariant
                    out@ == start + tail@.take(k as int),
            {
                out.push(tail[k]);
                assert(tail@.take(k + 1) =~= tail@.take(k as int).push(tail@[k as int]));
            }
            assert(tail@.take(tail.len() as int) =~= tail@);
            string_of(&out)
        },
    }
}


/// A value of the settings file, as the settings logic reads it: a text, a
/// whole number, a list of vaults, or something else.
#[derive(Debug)]
pub enum StoreValue {
    Text(String),
    Number(u64),
    Vaults(Vec<Vault>),
    Other,
}

pub enum StoreValueView {
    Text(Seq<char>),
    Number(u64),
    Vaults(Seq<VaultView>),
    Other,
}

impl View for StoreValue {
    type V = StoreValueView;

    open spec fn view(&self) -> StoreValueView {
        match self {
            StoreValue::Text(t) => StoreValueView::Text(t@),
            StoreValue::Number(n) => StoreValueView::Number(*n),
            StoreValue::Vaults(vs) => StoreValueView::Vaults(vault_views(vs@)),
            StoreValue::Other => StoreValueView::Other,
        }
    }
}

/// A change to the settings file: set a key, or delete it.
#[derive(Debug)]
pub enum StoreOp {
    Put(String, StoreValue),
    Delete(String),
}

pub enum StoreOpView {
    Put(Seq<char>, StoreValueView),
    Delete(Seq<char>),
}

impl View for StoreOp {
    type V = StoreOpView;

    open spec fn view(&self) -> StoreOpView {
        match self {
            StoreOp::Put(k, v) => StoreOpView::Put(k@, v@),
            StoreOp::Delete(k) => StoreOpView::Delete(k@),
        }
    }
}

/// The entries of a settings file, as key and value views.
pub open spec fn entries_view(e: Seq<(String, StoreValue)>) -> Seq<(Seq<char>, StoreValueView)> {
    Seq::new(e.len(), |i: int| (e[i].0@, e[i].1@))
}

/// The settings file as a map (a later entry for a key wins).
pub open spec fn store_of(e: Seq<(Seq<char>, StoreValueView)>) -> Map<Seq<char>, StoreValueView>
    decreases e.len(),
{
    if e.len() == 0 {
        Map::empty()
    } else {
        store_of(e.drop_last()).insert(e.last().0, e.last().1)
    }
}

/// The text at `key`, when there is a text there.
pub open spec fn text_at(m: Map<Seq<char>, StoreValueView>, key: Seq<char>) -> Option<Seq<char>> {
    if m.contains_key(key) {
        match m[key] {
            StoreValueView::Text(t) => Some(t),
            _ => None,
        }
    } else {
        None
    }
}

/// The settings that a settings file describes: texts at their keys, the
/// clipboard timeout (45 seconds where there is no number; a larger number
/// is cut to its low 32 bits), the vaults (none where there is no list), and
/// never a stored token.
pub open spec fn loaded(m: Map<Seq<char>, StoreValueView>) -> ConfigView {
    ConfigView {
        pass_binary: text_at(m, "pass_binary"@),
        gpg_binary: text_at(m, "gpg_binary"@),
        git_binary: text_at(m, "git_binary"@),
        password_store_dir: text_at(m, "password_store_dir"@),
        clipboard_timeout: if m.contains_key("clipboard_timeout"@) {
            match m["clipboard_timeout"@] {
                StoreValueView::Number(n) => (n % 0x1_0000_0000) as u32,
                _ => 45,
            }
        } else {
            45
        },
        vaults: if m.contains_key("vaults"@) {
            match m["vaults"@] {
                StoreValueView::Vaults(vs) => vs,
                _ => Seq::empty(),
            }
        } else {
            Seq::empty()
        },
        active_vault_id: text_at(m, "active_vault_id"@),
        device_key_fingerprint: text_at(m, "device_key_fingerprint"@),
        pat: None,
        repo_url: text_at(m, "repo_url"@),
    }
}

/// The value at `key` (the last entry for it).
fn lookup<'a>(entries: &'a Vec<(String, StoreValue)>, key: &str) -> (r: Option<&'a StoreValue>)
    ensures
        match r {
            Some(v) => store_of(entries_view(entries@)).contains_key(key@) && store_of(
                entries_view(entries@),
            )[key@] == v@,
            None => !store_of(entries_view(entries@)).contains_key(key@),
        },
{
    let k = chars_of(key);
    let ghost ev = entries_view(entries@);
    let mut found: Option<usize> = None;
    for i in 0..entries.len()
        invariant
            ev == entries_view(entries@),
            k@ == key@,
            match found {
                Some(j) => j < i && store_of(ev.take(i as int)).contains_key(key@) && store_of(
                    ev.take(i as int),
                )[key@] == ev[j as int].1,
                None => !store_of(ev.take(i as int)).contains_key(key@),
            },
    {
        assert(ev.take(i + 1).drop_last() =~= ev.take(i as int));
        if same_chars(&chars_of(entries[i].0.as_str()), &k) {
            found = Some(i);
        }
    }
    assert(ev.take(entries.len() as int) =~= ev);
    match found {
        Some(j) => Some(&entries[j].1),
        None => None,
    }
}

/// The text at `key`, when there is one.
fn text_value(entries: &Vec<(String, StoreValue)>, key: &str) -> (r: Option<String>)
    ensures
        opt_text(r) == text_at(store_of(entries_view(entries@)), key@),
{
    match lookup(entries, key) {
        Some(StoreValue::Text(t)) => Some(t.clone()),
        _ => None,
    }
}

/// Copies of the vaults.
fn copy_vaults(vs: &Vec<Vault>) -> (r: Vec<Vault>)
    ensures
        vault_views(r@) == vault_views(vs@),
{
    let mut r: Vec<Vault> = Vec::new();
    for k in 0..vs.len()
        invariant
            vault_views(r@) == vault_views(vs@).take(k as int),
    {
        let v = copy_vault(&vs[k]);
        let ghost before = vault_views(r@);
        r.push(v);
        assert(vault_views(r@) =~= before.push(v@));
        assert(vault_views(vs@).take(k + 1) =~= vault_views(vs@).take(k as int).push(vs@[k as int]@));
    }
    assert(vault_views(vs@).take(vs.len() as int) =~= vault_views(vs@));
    r
}

/// The settings that the entries of the settings file describe.
pub fn load_config(entries: &Vec<(String, StoreValue)>) -> (c: AppConfig)
    ensures
        c@ == loaded(store_of(entries_view(entries@))),
{
    let clipboard_timeout = match lookup(entries, "clipboard_timeout") {
        Some(StoreValue::Number(n)) => (*n % 0x1_0000_0000) as u32,
        _ => 45,
    };
    let vaults = match lookup(entries, "vaults") {
        Some(StoreValue::Vaults(vs)) => copy_vaults(vs),
        _ => Vec::new(),
    };
    let c = AppConfig {
        pass_binary: text_value(entries, "pass_binary"),
        gpg_binary: text_value(entries, "gpg_binary"),
        git_binary: text_value(entries, "git_binary"),
        password_store_dir: text_value(entries, "password_store_dir"),
        clipboard_timeout,
        vaults,
        active_vault_id: text_value(entries, "active_vault_id"),
        device_key_fingerprint: text_value(entries, "device_key_fingerprint"),
        pat: None,
        repo_url: text_value(entries, "repo_url"),
    };
    proof {
        if !store_of(entries_view(entries@)).contains_key("vaults"@) || !(store_of(
            entries_view(entries@),
        )["vaults"@] is Vaults) {
            assert(vault_views(c.vaults@) =~= Seq::<VaultView>::empty());
        }
    }
    c
}

/// Setting `key` to the text, or deleting it where there is none.
pub open spec fn text_op(key: Seq<char>, v: Option<Seq<char>>) -> StoreOpView {
    match v {
        Some(t) => StoreOpView::Put(key, StoreValueView::Text(t)),
        None => StoreOpView::Delete(key),
    }
}

/// The changes that save the settings: every text setting set or deleted,
/// the clipboard timeout and the vaults set, and the stored token deleted.
pub open spec fn saved(c: ConfigView) -> Seq<StoreOpView> {
    seq![
        text_op("pass_binary"@, c.pass_binary),
        text_op("gpg_binary"@, c.gpg_binary),
        text_op("git_binary"@, c.git_binary),
        text_op("password_store_dir"@, c.password_store_dir),
        StoreOpView::Put("clipboard_timeout"@, StoreValueView::Number(c.clipboard_timeout as u64)),
        StoreOpView::Put("vaults"@, StoreValueView::Vaults(c.vaults)),
        text_op("active_vault_id"@, c.active_vault_id),
        text_op("device_key_fingerprint"@, c.device_key_fingerprint),
        StoreOpView::Delete("pat"@),
        text_op("repo_url"@, c.repo_url),
    ]
}

fn text_store_op(key: &str, v: &Option<String>) -> (op: StoreOp)
    ensures
        op@ == text_op(key@, opt_text(*v)),
{
    match v {
        Some(t) => StoreOp::Put(key.to_owned(), StoreValue::Text(t.clone())),
        None => StoreOp::Delete(key.to_owned()),
    }
}

/// The changes to the settings file that save `config`.
pub fn save_config(config: &AppConfig) -> (ops: Vec<StoreOp>)
    ensures
        Seq::new(ops@.len(), |i: int| ops@[i]@) == saved(config@),
{
    let mut ops: Vec<StoreOp> = Vec::new();
    ops.push(text_store_op("pass_binary", &config.pass_binary));
    ops.push(text_store_op("gpg_binary", &config.gpg_binary));
    ops.push(text_store_op("git_binary", &config.git_binary));
    ops.push(text_store_op("password_store_dir", &config.password_store_dir));
    ops.push(StoreOp::Put("clipboard_timeout".to_owned(), StoreValue::Number(config.clipboard_timeout as u64)));
    ops.push(StoreOp::Put("vaults".to_owned(), StoreValue::Vaults(copy_vaults(&config.vaults))));
    ops.push(text_store_op("active_vault_id", &config.active_vault_id));
    ops.push(text_store_op("device_key_fingerprint", &config.device_key_fingerprint));
    ops.push(StoreOp::Delete("pat".to_owned()));
    ops.push(text_store_op("repo_url", &config.repo_url));
    assert(Seq::new(ops@.len(), |i: int| ops@[i]@) =~= saved(config@));
    ops
}

/// The settings file after one change.
pub open spec fn apply_op(m: Map<Seq<char>, StoreValueView>, op: StoreOpView) -> Map<Seq<char>, StoreValueView> {
    match op {
        StoreOpView::Put(k, v) => m.insert(k, v),
        StoreOpView::Delete(k) => m.remove(k),
    }
}

/// The settings file after the changes, in order.
pub open spec fn applied(m: Map<Seq<char>, StoreValueView>, ops: Seq<StoreOpView>) -> Map<Seq<char>, StoreValueView>
    decreases ops.len(),
{
    if ops.len() == 0 {
        m
    } else {
        apply_op(applied(m, ops.drop_last()), ops.last())
    }
}


/// Saving settings and loading them again gives the same settings, but for
/// the stored token, which is never saved.
pub proof fn lemma_save_then_load(m: Map<Seq<char>, StoreValueView>, c: ConfigView)
    ensures
        loaded(applied(m, saved(c))) == (ConfigView { pat: None, ..c }),
{
    reveal_strlit("pass_binary");
    reveal_strlit("gpg_binary");
    reveal_strlit("git_binary");
    reveal_strlit("password_store_dir");
    reveal_strlit("clipboard_timeout");
    reveal_strlit("vaults");
    reveal_strlit("active_vault_id");
    reveal_strlit("device_key_fingerprint");
    reveal_strlit("pat");
    reveal_strlit("repo_url");
    reveal_with_fuel(applied, 11);
    let ops = saved(c);
    let r = applied(m, ops);
    assert(ops.drop_last().drop_last().drop_last().drop_last().drop_last().drop_last().drop_last().drop_last().drop_last().drop_last() =~= Seq::<StoreOpView>::empty());
    assert("pass_binary"@ != "gpg_binary"@) by { assert("pass_binary"@[1] != "gpg_binary"@[1]); }
    assert("git_binary"@ != "gpg_binary"@) by { assert("git_binary"@[1] != "gpg_binary"@[1]); }
    assert("pass_binary"@.len() == 11);
    assert("gpg_binary"@.len() == 10);
    assert("git_binary"@.len() == 10);
    assert("password_store_dir"@.len() == 18);
    assert("clipboard_timeout"@.len() == 17);
    assert("vaults"@.len() == 6);
    assert("active_vault_id"@.len() == 15);
    assert("device_key_fingerprint"@.len() == 22);
    assert("pat"@.len() == 3);
    assert("repo_url"@.len() == 8);
    assert(((c.clipboard_timeout as u64) % 0x1_0000_0000) as u32 == c.clipboard_timeout);
    let l = loaded(r);
    assert(l.pass_binary == c.pass_binary);
    assert(l.gpg_binary == c.gpg_binary);
    assert(l.git_binary == c.git_binary);
    assert(l.password_store_dir == c.password_store_dir);
    assert(l.clipboard_timeout == c.clipboard_timeout);
    assert(l.vaults == c.vaults);
    assert(l.active_vault_id == c.active_vault_id);
    assert(l.device_key_fingerprint == c.device_key_fingerprint);
    assert(l.repo_url == c.repo_url);
}


/// Removing an id that no vault has leaves the vaults as they were.
proof fn lemma_without_absent(vs: Seq<VaultView>, id: Seq<char>)
    requires
        !has_vault(vs, id),
    ensures
        without_vault(vs, id) == vs,
    decreases vs.len(),
{
    reveal_with_fuel(Seq::filter, 1);
    if vs.len() > 0 {
        assert(!has_vault(vs.drop_last(), id)) by {
            if has_vault(vs.drop_last(), id) {
                let j = choose|j: int| 0 <= j < vs.drop_last().len() && (#[trigger] vs.drop_last()[j]).id == id;
                assert(vs[j].id == id);
            }
        }
        lemma_without_absent(vs.drop_last(), id);
        assert(vs.last().id != id) by {
            assert(vs[vs.len() - 1].id != id);
        }
        assert(vs.drop_last().push(vs.last()) =~= vs);
    } else {
        assert(without_vault(vs, id) =~= vs);
    }
}

/// Adding a vault with a new identifier and removing it again leaves the
/// vaults as they were.
pub proof fn lemma_add_then_remove(c: ConfigView, v: VaultView)
    requires
        !has_vault(c.vaults, v.id),
    ensures
        vault_removed(vault_added(c, v), v.id).vaults == c.vaults,
{
    reveal_with_fuel(Seq::filter, 1);
    assert(c.vaults.push(v).drop_last() =~= c.vaults);
    lemma_without_absent(c.vaults, v.id);
}

/// Once a vault is made active, the store directory in effect is the path
/// of the first vault with that identifier.
pub proof fn lemma_active_vault_in_effect(c: ConfigView, id: Seq<char>)
    requires
        has_vault(c.vaults, id),
    ensures
        effective_dir(ConfigView { active_vault_id: Some(id), ..c }) == Some(
            c.vaults[vault_index(c.vaults, id)].path,
        ),
        vault_index(c.vaults, id) < c.vaults.len(),
{
    lemma_vault_index(c.vaults, id);
    let j = choose|j: int| 0 <= j < c.vaults.len() && (#[trigger] c.vaults[j]).id == id;
    if vault_index(c.vaults, id) == c.vaults.len() {
        assert(c.vaults[j].id != id);
    }
}

/// After a reset, no vault is in effect and there is no store directory.
pub proof fn lemma_reset_forgets_store(c: ConfigView)
    ensures
        effective_dir(device_reset(c)) is None,
{
}

/// Registering a cloned store keeps every vault there was, in order, and
/// records the repository and the store directory. At a path that no vault
/// has, the new vault (`fresh_id`, `name`, `path`) comes after them and
/// becomes the active one; at a path that a vault has, the vaults stay as
/// they are and the first vault at that path becomes the active one. Nothing
/// else of the settings changes.
pub proof fn lemma_register_cloned_keeps_vaults(
    c: ConfigView,
    name: Seq<char>,
    path: Seq<char>,
    url: Seq<char>,
    fresh_id: Seq<char>,
)
    ensures
        ({
            let r = cloned_vault_registered(c, name, path, url, fresh_id);
            &&& r.vaults.len() >= c.vaults.len()
            &&& forall|i: int| 0 <= i < c.vaults.len() ==> r.vaults[i] == c.vaults[i]
            &&& r.repo_url == Some(url)
            &&& r.password_store_dir == Some(path)
            &&& r.pass_binary == c.pass_binary && r.gpg_binary == c.gpg_binary && r.git_binary == c.git_binary
            &&& r.clipboard_timeout == c.clipboard_timeout && r.pat == c.pat
            &&& r.device_key_fingerprint == c.device_key_fingerprint
            &&& (forall|j: int| 0 <= j < c.vaults.len() ==> c.vaults[j].path != path) ==> {
                &&& r.vaults.len() == c.vaults.len() + 1
                &&& r.vaults[c.vaults.len() as int] == (VaultView { id: fresh_id, name, path })
                &&& r.active_vault_id == Some(fresh_id)
            }
            &&& forall|k: int|
                0 <= k < c.vaults.len() && c.vaults[k].path == path && (forall|j: int|
                    0 <= j < k ==> c.vaults[j].path != path) ==> {
                    &&& r.vaults == c.vaults
                    &&& r.active_vault_id == Some(c.vaults[k].id)
                }
        }),
{
    lemma_vault_index_by_path(c.vaults, path);
    let m = vault_index_by_path(c.vaults, path);
    assert forall|k: int|
        0 <= k < c.vaults.len() && c.vaults[k].path == path && (forall|j: int|
            0 <= j < k ==> c.vaults[j].path != path) implies m == k by {
        if m < k {
            assert(c.vaults[m].path == path);
        }
    }
}

} // verus!
