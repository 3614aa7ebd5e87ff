use vstd::prelude::*;

use crate::config::PasseroError;
use crate::text::{
    append_chars, append_str, chars_of, contains_text, decimal, ends_with, has_infix, has_suffix,
    is_white, lines, lines_of, push_decimal, same_chars, seqs, split_chars, split_on, string_of, trim,
    trim_chars, trim_end,
};

verus! {

/// One user id of a key in a GnuPG key listing.
#[derive(Debug)]
pub struct GpgKey {
    pub id: String,
    pub fingerprint: String,
    pub uid: String,
    pub trust: String,
}

/// What a `GpgKey` holds, as character sequences.
pub struct GpgKeyView {
    pub id: Seq<char>,
    pub fingerprint: Seq<char>,
    pub uid: Seq<char>,
    pub trust: Seq<char>,
}

impl View for GpgKey {
    type V = GpgKeyView;

    open spec fn view(&self) -> GpgKeyView {
        GpgKeyView {
            id: self.id@,
            fingerprint: self.fingerprint@,
            uid: self.uid@,
            trust: self.trust@,
        }
    }
}

/// The parameters of a key generation request.
#[derive(Debug)]
pub struct GenerateKeyParams {
    pub name: String,
    pub email: String,
    pub passphrase: Option<String>,
    pub key_type: Option<String>,
    pub key_length: Option<u32>,
}

/// The views of a sequence of keys.
pub open spec fn key_views(keys: Seq<GpgKey>) -> Seq<GpgKeyView> {
    Seq::new(keys.len(), |i: int| keys[i]@)
}

/// Field `i` of a colon-separated record, or the empty text where the record
/// is shorter.
pub open spec fn field(fields: Seq<Seq<char>>, i: int) -> Seq<char> {
    if 0 <= i < fields.len() {
        fields[i]
    } else {
        Seq::<char>::empty()
    }
}

/// What a reader of a `--with-colons` listing remembers between lines.
pub struct ListingState {
    pub keys: Seq<GpgKeyView>,
    pub id: Seq<char>,
    pub fpr: Seq<char>,
    pub trust: Seq<char>,
}

pub open spec fn listing_start() -> ListingState {
    ListingState {
        keys: Seq::empty(),
        id: Seq::empty(),
        fpr: Seq::empty(),
        trust: Seq::empty(),
    }
}

/// One line of a key listing: a `pub` or `sec` record opens a key (its id in
/// field 4, its trust in field 1, no fingerprint yet), an `fpr` record sets the
/// fingerprint (field 9), and a `uid` record (user id in field 9) yields one
/// key when a key with a non-empty id is open. Lines with fewer than two
/// fields are skipped.
pub open spec fn listing_step(st: ListingState, line: Seq<char>) -> ListingState {
    let f = split_on(line, ':');
    if f.len() < 2 {
        st
    } else if f[0] == seq!['p', 'u', 'b'] || f[0] == seq!['s', 'e', 'c'] {
        ListingState { id: field(f, 4), trust: field(f, 1), fpr: Seq::empty(), ..st }
    } else if f[0] == seq!['f', 'p', 'r'] {
        ListingState { fpr: field(f, 9), ..st }
    } else if f[0] == seq!['u', 'i', 'd'] && st.id.len() > 0 {
        ListingState {
            keys: st.keys.push(
                GpgKeyView { id: st.id, fingerprint: st.fpr, uid: field(f, 9), trust: st.trust },
            ),
            ..st
        }
    } else {
        st
    }
}

/// The reader's state after the given lines.
pub open spec fn listing_after(lines: Seq<Seq<char>>) -> ListingState
    decreases lines.len(),
{
    if lines.len() == 0 {
        listing_start()
    } else {
        listing_step(listing_after(lines.drop_last()), lines.last())
    }
}

/// The keys that a `--list-keys --with-colons` listing describes.
pub open spec fn key_listing(text: Seq<char>) -> Seq<GpgKeyView> {
    listing_after(lines(text)).keys
}

/// One line of a keyserver search listing: a `pub` record opens a key (id in
/// field 4), a `uid` record with a non-empty user id (field 9) yields one key
/// without fingerprint or trust when the open key's id is non-empty.
pub open spec fn search_step(st: ListingState, line: Seq<char>) -> ListingState {
    let f = split_on(line, ':');
    if f.len() < 2 {
        st
    } else if f[0] == seq!['p', 'u', 'b'] {
        ListingState { id: field(f, 4), ..st }
    } else if f[0] == seq!['u', 'i', 'd'] && st.id.len() > 0 && field(f, 9).len() > 0 {
        ListingState {
            keys: st.keys.push(
                GpgKeyView {
                    id: st.id,
                    fingerprint: Seq::empty(),
                    uid: field(f, 9),
                    trust: Seq::empty(),
                },
            ),
            ..st
        }
    } else {
        st
    }
}

pub open spec fn search_after(lines: Seq<Seq<char>>) -> ListingState
    decreases lines.len(),
{
    if lines.len() == 0 {
        listing_start()
    } else {
        search_step(search_after(lines.drop_last()), lines.last())
    }
}

/// The keys that a `--search-keys --with-colons` listing describes.
pub open spec fn search_listing(text: Seq<char>) -> Seq<GpgKeyView> {
    search_after(lines(text)).keys
}

/// Field `i` of `fields`, or nothing where there are fewer fields.
fn field_at(fields: &Vec<Vec<char>>, i: usize) -> (r: Vec<char>)
    ensures
        r@ == field(seqs(fields@), i as int),
{
    if i < fields.len() {
        fields[i].clone()
    } else {
        Vec::new()
    }
}

/// A key built from its parts.
fn make_key(id: &Vec<char>, fpr: &Vec<char>, uid: &Vec<char>, trust: &Vec<char>) -> (k: GpgKey)
    ensures
        k@ == (GpgKeyView { id: id@, fingerprint: fpr@, uid: uid@, trust: trust@ }),
{
    GpgKey { id: string_of(id), fingerprint: string_of(fpr), uid: string_of(uid), trust: string_of(trust) }
}

/// The keys in the output of `gpg --list-keys --with-colons` (or
/// `--list-secret-keys`): one per user id.
pub fn parse_key_listing(stdout: &str) -> (keys: Vec<GpgKey>)
    ensures
        key_views(keys@) == key_listing(stdout@),
{
    let text = chars_of(stdout);
    let ls = lines_of(&text);
    let ghost all = seqs(ls@);
    let tag_pub = vec!['p', 'u', 'b'];
    let tag_sec = vec!['s', 'e', 'c'];
    let tag_fpr = vec!['f', 'p', 'r'];
    let tag_uid = vec!['u', 'i', 'd'];
    let mut keys: Vec<GpgKey> = Vec::new();
    let mut id: Vec<char> = Vec::new();
    let mut fpr: Vec<char> = Vec::new();
    let mut trust: Vec<char> = Vec::new();
    assert(all.take(0) =~= Seq::<Seq<char>>::empty());
    assert(key_views(keys@) =~= Seq::<GpgKeyView>::empty());
    for i in 0..ls.len()
        invariant
            all == seqs(ls@),
            all == lines(stdout@),
            tag_pub@ == seq!['p', 'u', 'b'],
            tag_sec@ == seq!['s', 'e', 'c'],
            tag_fpr@ == seq!['f', 'p', 'r'],
            tag_uid@ == seq!['u', 'i', 'd'],
            listing_after(all.take(i as int)) == (ListingState {
                keys: key_views(keys@),
                id: id@,
                fpr: fpr@,
                trust: trust@,
            }),
    {
        proof {
            assert(all.take(i + 1).drop_last() =~= all.take(i as int));
        }
        let fields = split_chars(&ls[i], ':');
        if fields.len() >= 2 {
            if same_chars(&fields[0], &tag_pub) || same_chars(&fields[0], &tag_sec) {
                id = field_at(&fields, 4);
                trust = field_at(&fields, 1);
                fpr = Vec::new();
            } else if same_chars(&fields[0], &tag_fpr) {
                fpr = field_at(&fields, 9);
            } else if same_chars(&fields[0], &tag_uid) && id.len() > 0 {
                let uid = field_at(&fields, 9);
                let k = make_key(&id, &fpr, &uid, &trust);
                let ghost before = key_views(keys@);
                keys.push(k);
                assert(key_views(keys@) =~= before.push(k@));
            }
        }
    }
    assert(all.take(ls.len() as int) =~= all);
    keys
}

/// The keys in the output of `gpg --search-keys --with-colons`: one per
/// non-empty user id, without fingerprint or trust.
pub fn parse_search_listing(stdout: &str) -> (keys: Vec<GpgKey>)
    ensures
        key_views(keys@) == search_listing(stdout@),
{
    let text = chars_of(stdout);
    let ls = lines_of(&text);
    let ghost all = seqs(ls@);
    let tag_pub = vec!['p', 'u', 'b'];
    let tag_uid = vec!['u', 'i', 'd'];
    let mut keys: Vec<GpgKey> = Vec::new();
    let mut id: Vec<char> = Vec::new();
    let empty: Vec<char> = Vec::new();
    assert(all.take(0) =~= Seq::<Seq<char>>::empty());
    assert(key_views(keys@) =~= Seq::<GpgKeyView>::empty());
    for i in 0..ls.len()
        invariant
            all == seqs(ls@),
            all == lines(stdout@),
            tag_pub@ == seq!['p', 'u', 'b'],
            tag_uid@ == seq!['u', 'i', 'd'],
            empty@ == Seq::<char>::empty(),
            search_after(all.take(i as int)).keys == key_views(keys@),
            search_after(all.take(i as int)).id == id@,
    {
        proof {
            assert(all.take(i + 1).drop_last() =~= all.take(i as int));
        }
        let fields = split_chars(&ls[i], ':');
        if fields.len() >= 2 {
            if same_chars(&fields[0], &tag_pub) {
                id = field_at(&fields, 4);
            } else if same_chars(&fields[0], &tag_uid) && id.len() > 0 {
                let uid = field_at(&fields, 9);
                if uid.len() > 0 {
                    let k = make_key(&id, &empty, &uid, &empty);
                    let ghost before = key_views(keys@);
                    keys.push(k);
                    assert(key_views(keys@) =~= before.push(k@));
                }
            }
        }
    }
    assert(all.take(ls.len() as int) =~= all);
    keys
}


/// The key answers to `id`: the same id or fingerprint, or one of the two
/// ends with the other (for the id and for the fingerprint).
pub open spec fn key_matches(k: GpgKeyView, id: Seq<char>) -> bool {
    ||| k.id == id
    ||| k.fingerprint == id
    ||| ends_with(k.id, id)
    ||| ends_with(id, k.id)
    ||| ends_with(k.fingerprint, id)
    ||| ends_with(id, k.fingerprint)
}

/// The index of the first key that answers to `id`, or the number of keys.
pub open spec fn first_match(keys: Seq<GpgKeyView>, id: Seq<char>) -> int
    decreases keys.len(),
{
    if keys.len() == 0 {
        0
    } else {
        let k = first_match(keys.drop_last(), id);
        if k < keys.len() - 1 {
            k
        } else if key_matches(keys.last(), id) {
            keys.len() - 1
        } else {
            keys.len() as int
        }
    }
}

/// `first_match` gives the first key that matches the id, or the length.
pub proof fn lemma_first_match(keys: Seq<GpgKeyView>, id: Seq<char>)
    ensures
        0 <= first_match(keys, id) <= keys.len(),
        first_match(keys, id) < keys.len() ==> key_matches(keys[first_match(keys, id)], id),
        forall|j: int| 0 <= j < first_match(keys, id) ==> !key_matches(#[trigger] keys[j], id),
    decreases keys.len(),
{
    if keys.len() > 0 {
        lemma_first_match(keys.drop_last(), id);
        assert forall|j: int| 0 <= j < first_match(keys, id) implies !key_matches(#[trigger] keys[j], id) by {
            if j < keys.len() - 1 {
                assert(keys[j] == keys.drop_last()[j]);
            }
        }
    }
}

/// Some secret key has the id `id`.
pub open spec fn has_secret(secret: Seq<GpgKeyView>, id: Seq<char>) -> bool {
    exists|j: int| 0 <= j < secret.len() && (#[trigger] secret[j]).id == id
}

/// The key of the keyring that `id` resolves to: the first public key that
/// answers to it, its trust marked `+secret` when a secret key has its id.
pub open spec fn resolved(public: Seq<GpgKeyView>, secret: Seq<GpgKeyView>, id: Seq<char>) -> Option<GpgKeyView> {
    let i = first_match(public, id);
    if i < public.len() {
        let k = public[i];
        Some(
            if has_secret(secret, k.id) {
                GpgKeyView { trust: k.trust + seq!['+', 's', 'e', 'c', 'r', 'e', 't'], ..k }
            } else {
                k
            },
        )
    } else {
        None
    }
}

/// The view of an optional key.
pub open spec fn opt_key(k: Option<GpgKey>) -> Option<GpgKeyView> {
    match k {
        Some(k) => Some(k@),
        None => None,
    }
}

fn key_answers(k: &GpgKey, id: &Vec<char>) -> (b: bool)
    ensures
        b == key_matches(k@, id@),
{
    let kid = chars_of(k.id.as_str());
    let kfp = chars_of(k.fingerprint.as_str());
    same_chars(&kid, id) || same_chars(&kfp, id) || has_suffix(&kid, id) || has_suffix(id, &kid)
        || has_suffix(&kfp, id) || has_suffix(id, &kfp)
}

/// Resolves key ids or fingerprints against the public and secret keys of the
/// keyring (see `resolved`).
pub fn resolve_gpg_keys(key_ids: &Vec<String>, public: &Vec<GpgKey>, secret: &Vec<GpgKey>) -> (out: Vec<Option<GpgKey>>)
    ensures
        out.len() == key_ids.len(),
        forall|i: int|
            0 <= i < key_ids.len() ==> opt_key(#[trigger] out@[i]) == resolved(
                key_views(public@),
                key_views(secret@),
                key_ids@[i]@,
            ),
{
    let ghost pv = key_views(public@);
    let ghost sv = key_views(secret@);
    let mut out: Vec<Option<GpgKey>> = Vec::new();
    for n in 0..key_ids.len()
        invariant
            pv == key_views(public@),
            sv == key_views(secret@),
            out.len() == n,
            forall|i: int| 0 <= i < n ==> opt_key(#[trigger] out@[i]) == resolved(pv, sv, key_ids@[i]@),
    {
        let id = chars_of(key_ids[n].as_str());
        proof {
            lemma_first_match(pv, id@);
        }
        let mut i: usize = 0;
        while i < public.len() && !key_answers(&public[i], &id)
            invariant
                pv == key_views(public@),
                i <= public.len(),
                forall|j: int| 0 <= j < i ==> !key_matches(#[trigger] pv[j], id@),
            decreases public.len() - i,
        {
            i = i + 1;
        }
        proof {
            let m = first_match(pv, id@);
            if (i as int) < m {
                assert(!key_matches(pv[i as int], id@));
            } else if m < i {
                assert(!key_matches(pv[m], id@));
            }
        }
        if i < public.len() {
            let k = &public[i];
            let kid = chars_of(k.id.as_str());
            let mut found = false;
            let mut j: usize = 0;
            while j < secret.len()
                invariant
                    sv == key_views(secret@),
                    j <= secret.len(),
                    found == (exists|m: int| 0 <= m < j && (#[trigger] sv[m]).id == kid@),
                decreases secret.len() - j,
            {
                if same_chars(&chars_of(secret[j].id.as_str()), &kid) {
                    found = true;
                    assert(sv[j as int].id == kid@);
                }
                j = j + 1;
            }
            let trust = if found {
                let mut t = chars_of(k.trust.as_str());
                append_str(&mut t, "+secret");
                proof {
                    reveal_strlit("+secret");
                }
                string_of(&t)
            } else {
                k.trust.clone()
            };
            let r = GpgKey { id: k.id.clone(), fingerprint: k.fingerprint.clone(), uid: k.uid.clone(), trust };
            proof {
                reveal_strlit("+secret");
                assert(pv[i as int] == k@);
                assert(first_match(pv, id@) == i);
                assert(has_secret(sv, kid@) == found);
                assert("+secret"@ =~= seq!['+', 's', 'e', 'c', 'r', 'e', 't']);
                assert(opt_key(Some(r)) == resolved(pv, sv, key_ids@[n as int]@));
            }
            out.push(Some(r));
        } else {
            out.push(None);
        }
        assert(opt_key(out@[n as int]) == resolved(pv, sv, key_ids@[n as int]@));
    }
    out
}

/// The trailing word of `t` (the characters after its last white space).
pub open spec fn word_suffix(t: Seq<char>) -> Seq<char>
    decreases t.len(),
{
    if t.len() == 0 || is_white(t.last()) {
        Seq::empty()
    } else {
        word_suffix(t.drop_last()).push(t.last())
    }
}

/// The last white-space separated word of `s` (empty when there is none).
pub open spec fn last_word(s: Seq<char>) -> Seq<char> {
    word_suffix(trim_end(s))
}

/// The fingerprint that `gpg --gen-key --status-fd 1` reports: the last word
/// of the first line that mentions `KEY_CREATED`, or `unknown`.
pub open spec fn created_fingerprint(ls: Seq<Seq<char>>) -> Seq<char>
    decreases ls.len(),
{
    if ls.len() == 0 {
        seq!['u', 'n', 'k', 'n', 'o', 'w', 'n']
    } else if contains_text(ls[0], seq!['K', 'E', 'Y', '_', 'C', 'R', 'E', 'A', 'T', 'E', 'D']) {
        last_word(ls[0])
    } else {
        created_fingerprint(ls.drop_first())
    }
}

fn last_word_of(s: &Vec<char>) -> (w: Vec<char>)
    ensures
        w@ == last_word(s@),
{
    let mut j = s.len();
    assert(s@.take(j as int) =~= s@);
    while j > 0 && crate::text::white(s[j - 1])
        invariant
            j <= s.len(),
            trim_end(s@) == trim_end(s@.take(j as int)),
        decreases j,
    {
        assert(s@.take(j as int).drop_last() =~= s@.take(j - 1));
        j = j - 1;
    }
    let ghost t = s@.take(j as int);
    assert(trim_end(t) == t);
    let mut i = j;
    while i > 0 && !crate::text::white(s[i - 1])
        invariant
            i <= j <= s.len(),
            t == s@.take(j as int),
            word_suffix(t) == word_suffix(s@.take(i as int)) + s@.subrange(i as int, j as int),
        decreases i,
    {
        assert(s@.take(i as int).drop_last() =~= s@.take(i - 1));
        assert(s@.subrange(i - 1, j as int) =~= seq![s@[i - 1]] + s@.subrange(i as int, j as int));
        i = i - 1;
    }
    assert(word_suffix(s@.take(i as int)) =~= Seq::<char>::empty());
    crate::text::slice_chars(s, i, j)
}

/// The fingerprint of the key that `gpg --gen-key --status-fd 1` created.
pub fn created_key_fingerprint(stdout: &str) -> (fpr: String)
    ensures
        fpr@ == created_fingerprint(lines(stdout@)),
{
    let ls = lines_of(&chars_of(stdout));
    let ghost all = seqs(ls@);
    let marker = vec!['K', 'E', 'Y', '_', 'C', 'R', 'E', 'A', 'T', 'E', 'D'];
    let mut i: usize = 0;
    assert(all.skip(0) =~= all);
    while i < ls.len()
        invariant
            all == seqs(ls@),
            all == lines(stdout@),
            i <= ls.len(),
            marker@ == seq!['K', 'E', 'Y', '_', 'C', 'R', 'E', 'A', 'T', 'E', 'D'],
            created_fingerprint(all) == created_fingerprint(all.skip(i as int)),
        decreases ls.len() - i,
    {
        assert(all.skip(i as int)[0] == all[i as int]);
        if has_infix(&ls[i], &marker) {
            let w = last_word_of(&ls[i]);
            return string_of(&w);
        }
        assert(all.skip(i as int).drop_first() =~= all.skip(i + 1));
        i = i + 1;
    }
    assert(all.skip(i as int) =~= Seq::<Seq<char>>::empty());
    string_of(&vec!['u', 'n', 'k', 'n', 'o', 'w', 'n'])
}


/// The text of an optional string, or `dflt`.
pub open spec fn text_or(o: Option<String>, dflt: Seq<char>) -> Seq<char> {
    match o {
        Some(s) => s@,
        None => dflt,
    }
}

/// The batch script that asks `gpg --batch --gen-key` for a key: key and
/// subkey of the requested type (RSA by default) and length (4096 by
/// default), the user's name and email, the passphrase (or no protection),
/// and the commit.
pub open spec fn generation_batch(p: GenerateKeyParams) -> Seq<char> {
    let kt = text_or(p.key_type, "RSA"@);
    let kl = decimal(
        match p.key_length {
            Some(l) => l as nat,
            None => 4096,
        },
    );
    "Key-Type: "@ + kt + "\nKey-Length: "@ + kl + "\nSubkey-Type: "@ + kt + "\nSubkey-Length: "@ + kl
        + "\nName-Real: "@ + p.name@ + "\nName-Email: "@ + p.email@ + "\n"@ + match p.passphrase {
        Some(pp) => "Passphrase: "@ + pp@ + "\n"@,
        None => "%no-protection\n"@,
    } + "%commit\n"@
}

/// The batch script for a key generation request (see `generation_batch`).
pub fn key_generation_batch(params: &GenerateKeyParams) -> (batch: String)
    ensures
        batch@ == generation_batch(*params),
{
    let kt: Vec<char> = match &params.key_type {
        Some(t) => chars_of(t.as_str()),
        None => chars_of("RSA"),
    };
    let mut kl: Vec<char> = Vec::new();
    match params.key_length {
        Some(l) => push_decimal(&mut kl, l as u128),
        None => push_decimal(&mut kl, 4096),
    }
    let mut out: Vec<char> = Vec::new();
    append_str(&mut out, "Key-Type: ");
    append_chars(&mut out, &kt);
    append_str(&mut out, "\nKey-Length: ");
    append_chars(&mut out, &kl);
    append_str(&mut out, "\nSubkey-Type: ");
    append_chars(&mut out, &kt);
    append_str(&mut out, "\nSubkey-Length: ");
    append_chars(&mut out, &kl);
    append_str(&mut out, "\nName-Real: ");
    append_str(&mut out, params.name.as_str());
    append_str(&mut out, "\nName-Email: ");
    append_str(&mut out, params.email.as_str());
    append_str(&mut out, "\n");
    match &params.passphrase {
        Some(pp) => {
            append_str(&mut out, "Passphrase: ");
            append_str(&mut out, pp.as_str());
            append_str(&mut out, "\n");
        },
        None => {
            append_str(&mut out, "%no-protection\n");
        },
    }
    append_str(&mut out, "%commit\n");
    assert(out@ =~= generation_batch(*params));
    string_of(&out)
}

/// What `gpg --edit-key <key> trust` is told: the level, then the
/// confirmation. Levels outside 1 to 5 are refused.
pub fn trust_input(trust_level: u32) -> (r: Result<String, PasseroError>)
    ensures
        (1 <= trust_level <= 5) ==> (r matches Ok(s) && s@ == decimal(trust_level as nat) + "\ny\n"@),
        !(1 <= trust_level <= 5) ==> (r matches Err(PasseroError::GpgError(m)) && m@
            == "Trust level must be 1-5"@),
{
    if trust_level < 1 || trust_level > 5 {
        return Err(PasseroError::GpgError("Trust level must be 1-5".to_owned()));
    }
    let mut out: Vec<char> = Vec::new();
    push_decimal(&mut out, trust_level as u128);
    append_str(&mut out, "\ny\n");
    Ok(string_of(&out))
}

/// The export option: secret keys or public keys.
pub fn export_flag(secret: bool) -> (flag: &'static str)
    ensures
        flag@ == (if secret {
            "--export-secret-keys"@
        } else {
            "--export"@
        }),
{
    if secret {
        "--export-secret-keys"
    } else {
        "--export"
    }
}

/// The keyserver to use: the given one, or keys.openpgp.org.
pub fn keyserver_or_default(keyserver: Option<String>) -> (server: String)
    ensures
        server@ == text_or(keyserver, "hkps://keys.openpgp.org"@),
{
    match keyserver {
        Some(k) => k,
        None => "hkps://keys.openpgp.org".to_owned(),
    }
}

/// The store's key ids as `.gpg-id` gives them: its text, trimmed.
pub fn store_gpg_id(content: &str) -> (ids: String)
    ensures
        ids@ == trim(content@),
{
    let cs = chars_of(content);
    let t = trim_chars(&cs);
    string_of(&t)
}

/// The user id of a key generated in the app: `name <email>`, or the name
/// alone when there is no email.
pub fn user_id_of(params: &GenerateKeyParams) -> (uid: String)
    ensures
        uid@ == (if params.email@.len() == 0 {
            params.name@
        } else {
            params.name@ + " <"@ + params.email@ + ">"@
        }),
{
    if params.email.as_str().is_empty() {
        params.name.clone()
    } else {
        let mut out = chars_of(params.name.as_str());
        append_str(&mut out, " <");
        append_str(&mut out, params.email.as_str());
        append_str(&mut out, ">");
        string_of(&out)
    }
}

/// The line is a record that opens a key or sets its fingerprint: `pub`,
/// `sec` or `fpr`, with at least two fields.
pub open spec fn opens_or_sets_fpr(l: Seq<char>) -> bool {
    let f = split_on(l, ':');
    f.len() >= 2 && (f[0] == seq!['p', 'u', 'b'] || f[0] == seq!['s', 'e', 'c'] || f[0] == seq![
        'f',
        'p',
        'r',
    ])
}

/// Lines that open no key and set no fingerprint keep the open key's id,
/// fingerprint and trust.
proof fn lemma_listing_keeps_open_key(pre: Seq<Seq<char>>, mid: Seq<Seq<char>>)
    requires
        forall|j: int| 0 <= j < mid.len() ==> !opens_or_sets_fpr(#[trigger] mid[j]),
    ensures
        listing_after(pre + mid).id == listing_after(pre).id,
        listing_after(pre + mid).fpr == listing_after(pre).fpr,
        listing_after(pre + mid).trust == listing_after(pre).trust,
    decreases mid.len(),
{
    if mid.len() == 0 {
        assert(pre + mid =~= pre);
    } else {
        lemma_listing_keeps_open_key(pre, mid.drop_last());
        assert((pre + mid).drop_last() =~= pre + mid.drop_last());
        assert(!opens_or_sets_fpr(mid[mid.len() - 1]));
    }
}

/// In a key listing, the key that a `uid` record yields has the id (field
/// 4) and trust (field 1) of the last `pub` or `sec` record before it, the
/// fingerprint of the last `fpr` record after that (field 9), and the user id
/// of the `uid` record (field 9); records of any other type between them
/// (`grp`, `sub`, `uid`, ...) change none of these. The key is added after
/// those already listed.
pub proof fn lemma_listing_key_fields(
    pre: Seq<Seq<char>>,
    p: Seq<char>,
    q: Seq<char>,
    mid: Seq<Seq<char>>,
    u: Seq<char>,
)
    requires
        split_on(p, ':').len() >= 2,
        split_on(p, ':')[0] == seq!['p', 'u', 'b'] || split_on(p, ':')[0] == seq!['s', 'e', 'c'],
        field(split_on(p, ':'), 4).len() > 0,
        split_on(q, ':').len() >= 2,
        split_on(q, ':')[0] == seq!['f', 'p', 'r'],
        forall|j: int| 0 <= j < mid.len() ==> !opens_or_sets_fpr(#[trigger] mid[j]),
        split_on(u, ':').len() >= 2,
        split_on(u, ':')[0] == seq!['u', 'i', 'd'],
    ensures
        listing_after(pre.push(p).push(q) + mid + seq![u]).keys == listing_after(pre.push(p).push(q)
            + mid).keys.push(
            GpgKeyView {
                id: field(split_on(p, ':'), 4),
                fingerprint: field(split_on(q, ':'), 9),
                uid: field(split_on(u, ':'), 9),
                trust: field(split_on(p, ':'), 1),
            },
        ),
{
    let head = pre.push(p).push(q);
    lemma_listing_keeps_open_key(head, mid);
    assert(head.drop_last() =~= pre.push(p));
    assert(pre.push(p).drop_last() =~= pre);
    let fq = split_on(q, ':');
    let fu = split_on(u, ':');
    assert(fq[0] != seq!['p', 'u', 'b'] && fq[0] != seq!['s', 'e', 'c']) by {
        assert(fq[0][0] == 'f');
    }
    let sp = listing_after(pre.push(p));
    assert(sp.id == field(split_on(p, ':'), 4) && sp.trust == field(split_on(p, ':'), 1));
    let sh = listing_after(head);
    assert(sh == listing_step(sp, q));
    assert(sh.id == field(split_on(p, ':'), 4) && sh.fpr == field(fq, 9) && sh.trust == field(split_on(p, ':'), 1));
    assert(fu[0] != seq!['p', 'u', 'b'] && fu[0] != seq!['s', 'e', 'c'] && fu[0] != seq!['f', 'p', 'r']) by {
        assert(fu[0][0] == 'u');
    }
    let all = head + mid + seq![u];
    assert(all.drop_last() =~= head + mid);
    assert(all.last() == u);
}

/// Lines that open no key keep the search reader's open key id.
proof fn lemma_search_keeps_id(pre: Seq<Seq<char>>, mid: Seq<Seq<char>>)
    requires
        forall|j: int|
            0 <= j < mid.len() ==> !(split_on(#[trigger] mid[j], ':').len() >= 2 && split_on(mid[j], ':')[0]
                == seq!['p', 'u', 'b']),
    ensures
        search_after(pre + mid).id == search_after(pre).id,
    decreases mid.len(),
{
    if mid.len() == 0 {
        assert(pre + mid =~= pre);
    } else {
        lemma_search_keeps_id(pre, mid.drop_last());
        assert((pre + mid).drop_last() =~= pre + mid.drop_last());
        let l = mid[mid.len() - 1];
        assert(!(split_on(l, ':').len() >= 2 && split_on(l, ':')[0] == seq!['p', 'u', 'b']));
    }
}

/// In a keyserver search listing, every `uid` record with a non-empty user
/// id that follows a `pub` record with a non-empty id yields one more key
/// with that id and user id, whatever records (other `uid` records among
/// them) came between; it is added after those already listed.
pub proof fn lemma_search_key_per_uid(pre: Seq<Seq<char>>, p: Seq<char>, mid: Seq<Seq<char>>, u: Seq<char>)
    requires
        split_on(p, ':').len() >= 2,
        split_on(p, ':')[0] == seq!['p', 'u', 'b'],
        field(split_on(p, ':'), 4).len() > 0,
        forall|j: int|
            0 <= j < mid.len() ==> !(split_on(#[trigger] mid[j], ':').len() >= 2 && split_on(mid[j], ':')[0]
                == seq!['p', 'u', 'b']),
        split_on(u, ':').len() >= 2,
        split_on(u, ':')[0] == seq!['u', 'i', 'd'],
        field(split_on(u, ':'), 9).len() > 0,
    ensures
        search_after(pre.push(p) + mid + seq![u]).keys == search_after(pre.push(p) + mid).keys.push(
            GpgKeyView {
                id: field(split_on(p, ':'), 4),
                fingerprint: Seq::empty(),
                uid: field(split_on(u, ':'), 9),
                trust: Seq::empty(),
            },
        ),
{
    let head = pre.push(p);
    lemma_search_keeps_id(head, mid);
    assert(head.drop_last() =~= pre);
    let fu = split_on(u, ':');
    assert(fu[0] != seq!['p', 'u', 'b']) by {
        assert(fu[0][0] == 'u');
    }
    let all = head + mid + seq![u];
    assert(all.drop_last() =~= head + mid);
    assert(all.last() == u);
}

} // verus!
