use vstd::prelude::*;

use crate::text::{chars_of, ends_with, has_suffix, string_of};

verus! {

/// What the mobile app keeps while it runs: the store directory, the loaded
/// key (armored) and the access token.
#[derive(Debug)]
pub struct IosState {
    pub store_dir: String,
    pub key_armored: Option<Vec<u8>>,
    pub token: Option<String>,
}

impl Default for IosState {
    fn default() -> (s: Self)
        ensures
            s.store_dir@ == Seq::<char>::empty(),
            s.key_armored is None,
            s.token is None,
    {
        IosState { store_dir: String::new(), key_armored: None, token: None }
    }
}

impl IosState {
    /// Forgets the loaded key and the token (the store directory stays).
    pub fn reset(&mut self)
        ensures
            final(self).store_dir == old(self).store_dir,
            final(self).key_armored is None,
            final(self).token is None,
    {
        self.key_armored = None;
        self.token = None;
    }

    /// Keeps a loaded key, and the stored access token when there is one.
    pub fn load_key(&mut self, armored: Vec<u8>, pat: Option<String>)
        ensures
            final(self).store_dir == old(self).store_dir,
            final(self).key_armored == Some(armored),
            final(self).token == (if pat is Some {
                pat
            } else {
                old(self).token
            }),
    {
        self.key_armored = Some(armored);
        if pat.is_some() {
            self.token = pat;
        }
    }
}

/// A commit of the store's history.
#[derive(Debug)]
pub struct GitLogEntry {
    pub hash: String,
    pub message: String,
    pub author: String,
    pub date: String,
}

/// A key generated in the app: its fingerprint and armored secret key.
#[derive(Debug)]
pub struct GeneratedKey {
    pub fingerprint: String,
    pub armored: String,
}

/// Whether the device has a key, and its fingerprint.
#[derive(Debug)]
pub struct DeviceKeyStatus {
    pub has_key: bool,
    pub fingerprint: Option<String>,
}

/// The device's key status for the recorded fingerprint.
pub fn device_key_status(fingerprint: Option<String>) -> (s: DeviceKeyStatus)
    ensures
        s.has_key == fingerprint is Some,
        s.fingerprint == fingerprint,
{
    DeviceKeyStatus { has_key: fingerprint.is_some(), fingerprint }
}

/// One step of the xorshift generator.
pub open spec fn xorshift(s: u64) -> u64 {
    let a = s ^ (s << 13u64);
    let b = a ^ (a >> 7u64);
    b ^ (b << 17u64)
}

/// The generator's state after `k` steps from `seed`.
pub open spec fn state_after(seed: u64, k: nat) -> u64
    decreases k,
{
    if k == 0 {
        seed
    } else {
        xorshift(state_after(seed, (k - 1) as nat))
    }
}

/// The characters a password is drawn from: letters and digits, and with
/// `symbols` the punctuation `!@#$%^&*()-_=+[]{};:,.<>?`.
pub open spec fn password_pool(symbols: bool) -> Seq<char> {
    "abcdefghijklmnopqrstuvwxyzABCDEFGHIJKLMNOPQRSTUVWXYZ0123456789"@ + if symbols {
        "!@#$%^&*()-_=+[]{};:,.<>?"@
    } else {
        Seq::empty()
    }
}

/// The password of `length` characters for `seed`: character `k` is the
/// pool's character at the generator's state after `k + 1` steps, modulo the
/// pool's size.
pub open spec fn password_for(length: nat, symbols: bool, seed: u64) -> Seq<char> {
    Seq::new(
        length,
        |k: int| password_pool(symbols)[(state_after(seed, (k + 1) as nat) % (password_pool(symbols).len() as u64)) as int],
    )
}

/// A password of `length` characters drawn from the pool with the xorshift
/// generator started at `seed` (see `password_for`).
pub fn generate_random_password(length: u32, symbols: bool, seed: u64) -> (pw: String)
    ensures
        pw@ == password_for(length as nat, symbols, seed),
{
    let mut pool = chars_of("abcdefghijklmnopqrstuvwxyzABCDEFGHIJKLMNOPQRSTUVWXYZ0123456789");
    if symbols {
        let syms = chars_of("!@#$%^&*()-_=+[]{};:,.<>?");
        crate::text::append_chars(&mut pool, &syms);
    }
    proof {
        reveal_strlit("abcdefghijklmnopqrstuvwxyzABCDEFGHIJKLMNOPQRSTUVWXYZ0123456789");
        reveal_strlit("!@#$%^&*()-_=+[]{};:,.<>?");
        assert(pool@ =~= password_pool(symbols));
    }
    let n = pool.len() as u64;
    let mut out: Vec<char> = Vec::new();
    let mut s = seed;
    let mut k: u32 = 0;
    while k < length
        invariant
            k <= length,
            pool@ == password_pool(symbols),
            n == pool.len(),
            n > 0,
            s == state_after(seed, k as nat),
            out@ =~= password_for(k as nat, symbols, seed),
        decreases length - k,
    {
        s = s ^ (s << 13u64);
        s = s ^ (s >> 7u64);
        s = s ^ (s << 17u64);
        let idx = (s % n) as usize;
        out.push(pool[idx]);
        k = k + 1;
    }
    string_of(&out)
}

/// The generator's seed: the clock's nanoseconds (cut to 64 bits), or a
/// fixed constant when the clock gives none.
pub fn password_seed(nanos: Option<u128>) -> (seed: u64)
    ensures
        seed == match nanos {
            Some(n) => (n % 0x1_0000_0000_0000_0000) as u64,
            None => 0x9e3779b97f4a7c15u64,
        },
{
    match nanos {
        Some(n) => (n % 0x1_0000_0000_0000_0000) as u64,
        None => 0x9e3779b97f4a7c15,
    }
}

/// `s` without its trailing `c`s.
pub open spec fn strip_trailing(s: Seq<char>, c: char) -> Seq<char>
    decreases s.len(),
{
    if s.len() > 0 && s.last() == c {
        strip_trailing(s.drop_last(), c)
    } else {
        s
    }
}

/// What follows the last `c` of `s` (all of `s` when it has none).
pub open spec fn after_last(s: Seq<char>, c: char) -> Seq<char>
    decreases s.len(),
{
    if s.len() == 0 || s.last() == c {
        Seq::empty()
    } else {
        after_last(s.drop_last(), c).push(s.last())
    }
}

/// `s` without its trailing copies of `p`.
pub open spec fn strip_suffixes(s: Seq<char>, p: Seq<char>) -> Seq<char>
    decreases s.len(),
{
    if p.len() > 0 && ends_with(s, p) {
        strip_suffixes(s.take(s.len() - p.len()), p)
    } else {
        s
    }
}

/// The name of a vault cloned from `url`: the URL's last path segment
/// without `.git`, or `Vault` when that is empty.
pub open spec fn vault_name(url: Seq<char>) -> Seq<char> {
    let n = strip_suffixes(after_last(strip_trailing(url, '/'), '/'), seq!['.', 'g', 'i', 't']);
    if n.len() == 0 {
        seq!['V', 'a', 'u', 'l', 't']
    } else {
        n
    }
}

/// The name of a vault cloned from `url` (see `vault_name`).
pub fn vault_name_from_url(url: &str) -> (name: String)
    ensures
        name@ == vault_name(url@),
{
    let cs = chars_of(url);
    let mut j = cs.len();
    assert(cs@.take(j as int) =~= cs@);
    while j > 0 && cs[j - 1] == '/'
        invariant
            j <= cs.len(),
            strip_trailing(cs@, '/') == strip_trailing(cs@.take(j as int), '/'),
        decreases j,
    {
        assert(cs@.take(j as int).drop_last() =~= cs@.take(j - 1));
        j = j - 1;
    }
    let ghost t = cs@.take(j as int);
    let mut i = j;
    while i > 0 && cs[i - 1] != '/'
        invariant
            i <= j <= cs.len(),
            t == cs@.take(j as int),
            after_last(t, '/') == after_last(cs@.take(i as int), '/') + cs@.subrange(i as int, j as int),
        decreases i,
    {
        assert(cs@.take(i as int).drop_last() =~= cs@.take(i - 1));
        assert(cs@.subrange(i - 1, j as int) =~= seq![cs@[i - 1]] + cs@.subrange(i as int, j as int));
        i = i - 1;
    }
    assert(after_last(cs@.take(i as int), '/') =~= Seq::<char>::empty());
    let mut seg = crate::text::slice_chars(&cs, i, j);
    let git = vec!['.', 'g', 'i', 't'];
    assert(after_last(t, '/') =~= seg@);
    while has_suffix(&seg, &git)
        invariant
            git@ == seq!['.', 'g', 'i', 't'],
            strip_suffixes(after_last(t, '/'), git@) == strip_suffixes(seg@, git@),
        decreases seg.len(),
    {
        let m = seg.len() - 4;
        seg = crate::text::slice_chars(&seg, 0, m);
    }
    if seg.len() == 0 {
        string_of(&vec!['V', 'a', 'u', 'l', 't'])
    } else {
        string_of(&seg)
    }
}

} // verus!
