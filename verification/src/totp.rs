use vstd::prelude::*;
use vstd::utf8::{decode_utf8, encode_utf8, valid_utf8};

use crate::config::{opt_text, PasseroError};
use crate::text::{
    append_chars, append_str, chars_of, ends_with, has_prefix, is_white, lemma_lines_trim_end, lemma_split_on_after,
    lemma_split_on_avoids, lemma_split_on_last_empty, lemma_split_on_none, lemma_split_on_nonempty,
    lemma_split_on_pieces, lemma_trim_end_avoids, lemma_trim_end_last,
    lemma_trim_strip_cr, lines, lines_of, seqs, split_on, starts_with, string_of, strip_cr, trim,
    trim_chars, trim_end,
};

verus! {

/// The scheme prefix of a one-time-password URI.
pub open spec fn otpauth_prefix() -> Seq<char> {
    seq!['o', 't', 'p', 'a', 'u', 't', 'h', ':', '/', '/']
}

/// The line holds a one-time-password URI (after trimming).
pub open spec fn is_otp_line(l: Seq<char>) -> bool {
    starts_with(trim(l), otpauth_prefix())
}

/// The first one-time-password URI among the lines, trimmed.
pub open spec fn first_otp(ls: Seq<Seq<char>>) -> Option<Seq<char>>
    decreases ls.len(),
{
    if ls.len() == 0 {
        None
    } else if is_otp_line(ls[0]) {
        Some(trim(ls[0]))
    } else {
        first_otp(ls.drop_first())
    }
}

/// The one-time-password URI of a password entry: its first line that is
/// one, trimmed.
pub open spec fn otp_uri_of(content: Seq<char>) -> Option<Seq<char>> {
    first_otp(lines(content))
}

/// The one-time-password URI of a password entry, if it has one.
pub fn find_otp_uri(content: &str) -> (uri: Option<String>)
    ensures
        opt_text(uri) == otp_uri_of(content@),
{
    let ls = lines_of(&chars_of(content));
    let ghost all = seqs(ls@);
    let prefix = vec!['o', 't', 'p', 'a', 'u', 't', 'h', ':', '/', '/'];
    let mut i: usize = 0;
    assert(all.skip(0) =~= all);
    while i < ls.len()
        invariant
            all == seqs(ls@),
            all == lines(content@),
            i <= ls.len(),
            prefix@ == otpauth_prefix(),
            first_otp(all) == first_otp(all.skip(i as int)),
        decreases ls.len() - i,
    {
        assert(all.skip(i as int)[0] == all[i as int]);
        let t = trim_chars(&ls[i]);
        if has_prefix(&t, &prefix) {
            return Some(string_of(&t));
        }
        assert(all.skip(i as int).drop_first() =~= all.skip(i + 1));
        i = i + 1;
    }
    assert(all.skip(i as int) =~= Seq::<Seq<char>>::empty());
    None
}

/// The lines joined with line feeds between them.
pub open spec fn join_lines(ls: Seq<Seq<char>>) -> Seq<char>
    decreases ls.len(),
{
    if ls.len() == 0 {
        Seq::empty()
    } else if ls.len() == 1 {
        ls[0]
    } else {
        join_lines(ls.drop_last()).push('\n') + ls.last()
    }
}

/// A line of an entry with its one-time-password URI set to `uri`: `uri`
/// in place of a line that holds one.
pub open spec fn set_otp(uri: Seq<char>) -> spec_fn(Seq<char>) -> Seq<char> {
    |l: Seq<char>| if is_otp_line(l) { uri } else { l }
}

/// The entry with its one-time-password URI set to `uri`: every line that
/// holds one is replaced by `uri` (the lines then joined by line feeds);
/// without such a line, `uri` is added on a line of its own after the
/// entry's text without trailing white space.
pub open spec fn merged(existing: Seq<char>, uri: Seq<char>) -> Seq<char> {
    if otp_uri_of(existing) is Some {
        join_lines(lines(existing).map_values(set_otp(uri)))
    } else if trim_end(existing).len() == 0 {
        uri
    } else {
        trim_end(existing).push('\n') + uri
    }
}

/// The first one-time-password line among `ls` stands at `k` when `ls[k]`
/// is one and none before it is.
proof fn lemma_first_otp_at(ls: Seq<Seq<char>>, k: int)
    requires
        0 <= k < ls.len(),
        is_otp_line(ls[k]),
        forall|j: int| 0 <= j < k ==> !is_otp_line(#[trigger] ls[j]),
    ensures
        first_otp(ls) == Some(trim(ls[k])),
    decreases k,
{
    if k > 0 {
        assert(!is_otp_line(ls[0]));
        assert forall|j: int| 0 <= j < k - 1 implies !is_otp_line(#[trigger] ls.drop_first()[j]) by {
            assert(ls.drop_first()[j] == ls[j + 1]);
        }
        lemma_first_otp_at(ls.drop_first(), k - 1);
    }
}

/// Lines without a first one-time-password line hold none.
proof fn lemma_first_otp_none(ls: Seq<Seq<char>>)
    requires
        first_otp(ls) is None,
    ensures
        forall|j: int| 0 <= j < ls.len() ==> !is_otp_line(#[trigger] ls[j]),
    decreases ls.len(),
{
    if ls.len() > 0 {
        lemma_first_otp_none(ls.drop_first());
        assert forall|j: int| 0 <= j < ls.len() implies !is_otp_line(#[trigger] ls[j]) by {
            if j > 0 {
                assert(ls[j] == ls.drop_first()[j - 1]);
            }
        }
    }
}

/// Where the first one-time-password line stands.
proof fn lemma_first_otp_index(ls: Seq<Seq<char>>) -> (k: int)
    requires
        first_otp(ls) is Some,
    ensures
        0 <= k < ls.len(),
        is_otp_line(ls[k]),
        forall|j: int| 0 <= j < k ==> !is_otp_line(#[trigger] ls[j]),
    decreases ls.len(),
{
    if is_otp_line(ls[0]) {
        0
    } else {
        let k = lemma_first_otp_index(ls.drop_first());
        assert forall|j: int| 0 <= j < k + 1 implies !is_otp_line(#[trigger] ls[j]) by {
            if j > 0 {
                assert(ls[j] == ls.drop_first()[j - 1]);
            }
        }
        k + 1
    }
}

/// Lines without line feeds, joined by line feeds, split back into
/// themselves.
proof fn lemma_split_join(ls: Seq<Seq<char>>)
    requires
        ls.len() > 0,
        forall|i: int, j: int| 0 <= i < ls.len() && 0 <= j < ls[i].len() ==> #[trigger] ls[i][j] != '\n',
    ensures
        split_on(join_lines(ls), '\n') == ls,
    decreases ls.len(),
{
    if ls.len() == 1 {
        lemma_split_on_none(ls[0], '\n');
        assert(seq![ls[0]] =~= ls);
    } else {
        lemma_split_join(ls.drop_last());
        lemma_split_on_none(ls.last(), '\n');
        lemma_split_on_after(join_lines(ls.drop_last()), ls.last(), '\n');
        assert(ls.drop_last() + seq![ls.last()] =~= ls);
    }
}

/// Whether a line holds a one-time-password URI does not depend on a
/// carriage return at its end.
proof fn lemma_otp_line_strip_cr(l: Seq<char>)
    ensures
        is_otp_line(strip_cr(l)) == is_otp_line(l),
{
    lemma_trim_strip_cr(l);
}

/// A URI that begins with `otpauth://` and ends in other than white space
/// is a line of its own that trims to itself.
proof fn lemma_clean_uri(uri: Seq<char>)
    requires
        starts_with(uri, otpauth_prefix()),
        !is_white(uri.last()),
    ensures
        trim(uri) == uri,
        strip_cr(uri) == uri,
        is_otp_line(uri),
{
    assert(uri[0] == uri.take(10)[0]);
    assert(crate::text::trim_start(uri) == uri);
}

/// Setting a one-time-password URI and then looking for one finds it: for a
/// URI that begins with `otpauth://`, holds no line feed and does not end in
/// white space, the entry that `merge_otp` writes gives back that URI.
pub proof fn lemma_merged_finds_uri(existing: Seq<char>, uri: Seq<char>)
    requires
        starts_with(uri, otpauth_prefix()),
        !is_white(uri.last()),
        forall|i: int| 0 <= i < uri.len() ==> uri[i] != '\n',
    ensures
        otp_uri_of(merged(existing, uri)) == Some(uri),
{
    lemma_clean_uri(uri);
    lemma_split_on_none(uri, '\n');
    let ls = lines(existing);
    if otp_uri_of(existing) is Some {
        let k = lemma_first_otp_index(ls);
        let m = ls.map_values(set_otp(uri));
        let pieces = split_on(existing, '\n');
        lemma_split_on_pieces(existing, '\n');
        lemma_split_on_nonempty(existing, '\n');
        assert forall|i: int, j: int| 0 <= i < m.len() && 0 <= j < m[i].len() implies #[trigger] m[i][j]
            != '\n' by {
            if is_otp_line(ls[i]) {
                assert(m[i] == uri);
            } else {
                assert(m[i] == ls[i]);
                if i < pieces.len() - 1 {
                    assert(ls[i] == strip_cr(pieces[i]));
                } else {
                    assert(ls[i] == pieces[i]);
                }
                assert(m[i][j] == pieces[i][j]);
            }
        }
        lemma_split_join(m);
        assert(merged(existing, uri) == join_lines(m));
        let out = lines(merged(existing, uri));
        assert(m[k] == uri);
        assert(k < out.len());
        assert forall|j: int| 0 <= j < k implies !is_otp_line(#[trigger] out[j]) by {
            assert(m[j] == ls[j]);
            assert(out[j] == strip_cr(m[j]));
            lemma_otp_line_strip_cr(m[j]);
        }
        if k < m.len() - 1 {
            assert(out[k] == strip_cr(m[k]));
        } else {
            assert(out[k] == m[k]);
        }
        lemma_first_otp_at(out, k);
    } else if trim_end(existing).len() == 0 {
        assert(lines(uri) =~= seq![uri]);
        lemma_first_otp_at(lines(uri), 0);
    } else {
        let t = trim_end(existing);
        lemma_trim_end_last(existing);
        lemma_lines_trim_end(existing);
        lemma_first_otp_none(ls);
        lemma_split_on_after(t, uri, '\n');
        lemma_split_on_nonempty(t.drop_last(), '\n');
        let st = split_on(t, '\n');
        assert(st.last().len() > 0);
        let lt = lines(t);
        assert(lt == st.map_values(|p: Seq<char>| strip_cr(p)));
        let out = lines(merged(existing, uri));
        assert(merged(existing, uri) == t.push('\n') + uri);
        assert(split_on(merged(existing, uri), '\n') == st + seq![uri]);
        assert(out == (st + seq![uri]).map_values(|p: Seq<char>| strip_cr(p)));
        assert(out =~= lt.push(uri));
        assert forall|j: int| 0 <= j < lt.len() implies !is_otp_line(#[trigger] out[j]) by {
            assert(out[j] == lt[j]);
            assert(trim(lt[j]) == trim(ls[j]));
            assert(!is_otp_line(ls[j]));
        }
        lemma_first_otp_at(out, lt.len() as int);
    }
}

/// Joining the pieces of a split at line feeds gives back the text.
proof fn lemma_join_split(s: Seq<char>)
    ensures
        join_lines(split_on(s, '\n')) == s,
    decreases s.len(),
{
    if s.len() == 0 {
        assert(split_on(s, '\n') =~= seq![Seq::<char>::empty()]);
        assert(s =~= Seq::<char>::empty());
    } else {
        let a = s.drop_last();
        let c = s.last();
        let x = split_on(a, '\n');
        lemma_join_split(a);
        lemma_split_on_nonempty(a, '\n');
        if c == '\n' {
            let y = x.push(Seq::<char>::empty());
            assert(y.drop_last() =~= x);
            assert(join_lines(y) =~= a.push('\n'));
        } else {
            let y = x.update(x.len() - 1, x.last().push(c));
            if x.len() == 1 {
                assert(join_lines(y) == y[0]);
                assert(join_lines(x) == x[0]);
            } else {
                assert(y.drop_last() =~= x.drop_last());
                assert(join_lines(y) == join_lines(x.drop_last()).push('\n') + x.last().push(c));
                assert(join_lines(x) == join_lines(x.drop_last()).push('\n') + x.last());
            }
        }
        assert(a.push(c) =~= s);
    }
}

/// Lines without a carriage return, whose last piece is not empty, are the
/// pieces of the split.
proof fn lemma_lines_plain(s: Seq<char>)
    requires
        forall|k: int| 0 <= k < s.len() ==> s[k] != '\r',
        split_on(s, '\n').last().len() > 0,
    ensures
        lines(s) == split_on(s, '\n'),
{
    let p = split_on(s, '\n');
    lemma_split_on_avoids(s, '\n', '\r');
    lemma_split_on_nonempty(s, '\n');
    assert forall|i: int| 0 <= i < p.len() - 1 implies strip_cr(#[trigger] p[i]) == p[i] by {
        if p[i].len() > 0 {
            assert(p[i][p[i].len() - 1] != '\r');
        }
    }
    assert(lines(s) =~= p);
}

/// Merging a one-time-password URI a second time changes nothing: for a
/// URI on one line that holds one, and an entry that does not end in an
/// empty line, neither holding a carriage return.
pub proof fn lemma_merge_otp_idempotent(existing: Seq<char>, uri: Seq<char>)
    requires
        is_otp_line(uri),
        forall|i: int| 0 <= i < uri.len() ==> uri[i] != '\n' && uri[i] != '\r',
        forall|i: int| 0 <= i < existing.len() ==> existing[i] != '\r',
        !ends_with(existing, seq!['\n', '\n']),
    ensures
        merged(merged(existing, uri), uri) == merged(existing, uri),
{
    let ls = lines(existing);
    let m1 = merged(existing, uri);
    assert(uri.len() > 0) by {
        if uri.len() == 0 {
            assert(trim(uri) =~= uri) by {
                assert(crate::text::trim_start(uri) == uri);
            }
        }
    }
    lemma_split_on_none(uri, '\n');
    let pieces = split_on(existing, '\n');
    lemma_split_on_pieces(existing, '\n');
    lemma_split_on_avoids(existing, '\n', '\r');
    lemma_split_on_nonempty(existing, '\n');
    if otp_uri_of(existing) is Some {
        let k = lemma_first_otp_index(ls);
        let m = ls.map_values(set_otp(uri));
        assert forall|i: int, j: int| 0 <= i < m.len() && 0 <= j < m[i].len() implies #[trigger] m[i][j]
            != '\n' && m[i][j] != '\r' by {
            if !is_otp_line(ls[i]) {
                assert(m[i] == ls[i]);
                if i < pieces.len() - 1 {
                    assert(ls[i] == strip_cr(pieces[i]));
                } else {
                    assert(ls[i] == pieces[i]);
                }
                assert(m[i][j] == pieces[i][j]);
            }
        }
        // The last line of the entry is not empty.
        if pieces.last().len() == 0 {
            lemma_split_on_last_empty(existing, '\n');
            let a = existing.drop_last();
            let q = split_on(a, '\n');
            lemma_split_on_nonempty(a, '\n');
            if q.last().len() == 0 {
                if a.len() == 0 {
                    assert(ls =~= seq![Seq::<char>::empty()]);
                    assert(!is_otp_line(Seq::<char>::empty())) by {
                        assert(crate::text::trim_start(Seq::<char>::empty()) == Seq::<char>::empty());
                    }
                    assert(false);
                } else {
                    lemma_split_on_last_empty(a, '\n');
                    assert(existing.subrange(existing.len() - 2, existing.len() as int) =~= seq!['\n', '\n']);
                    assert(false);
                }
            }
        }
        assert(m.last().len() > 0) by {
            if !is_otp_line(ls.last()) {
                assert(m.last() == ls.last());
                if pieces.last().len() == 0 {
                    assert(ls.last() == strip_cr(pieces[pieces.len() - 2]));
                    let pl = pieces[pieces.len() - 2];
                    if pl.len() > 0 {
                        assert(pl[pl.len() - 1] != '\r');
                    }
                }
            }
        }
        lemma_split_join(m);
        assert(m1 == join_lines(m));
        assert forall|i: int| 0 <= i < m1.len() implies m1[i] != '\r' by {
            lemma_join_avoids(m, i);
        }
        lemma_lines_plain(m1);
        assert(lines(m1) == m);
        assert(m[k] == uri);
        lemma_first_otp_none_exists(m, k);
        assert(m.map_values(set_otp(uri)) =~= m);
    } else if trim_end(existing).len() == 0 {
        assert(m1 == uri);
        lemma_lines_plain(uri);
        assert(lines(uri) =~= seq![uri]);
        lemma_first_otp_none_exists(seq![uri], 0);
        assert(seq![uri].map_values(set_otp(uri)) =~= seq![uri]);
        assert(join_lines(seq![uri]) == uri);
    } else {
        let t = trim_end(existing);
        lemma_trim_end_last(existing);
        lemma_trim_end_avoids(existing, '\r');
        lemma_lines_trim_end(existing);
        lemma_first_otp_none(ls);
        lemma_split_on_after(t, uri, '\n');
        lemma_split_on_nonempty(t.drop_last(), '\n');
        let st = split_on(t, '\n');
        assert(st.last().len() > 0);
        lemma_lines_plain(t);
        assert(m1 == t.push('\n') + uri);
        assert(split_on(m1, '\n') == st + seq![uri]);
        assert forall|i: int| 0 <= i < m1.len() implies m1[i] != '\r' by {
            if i < t.len() {
                assert(m1[i] == t[i]);
            } else if i > t.len() {
                assert(m1[i] == uri[i - t.len() - 1]);
            }
        }
        lemma_lines_plain(m1);
        let l1 = lines(m1);
        assert(l1 =~= st.push(uri));
        lemma_first_otp_none_exists(l1, st.len() as int);
        assert forall|j: int| 0 <= j < st.len() implies !is_otp_line(#[trigger] st[j]) by {
            assert(st[j] == lines(t)[j]);
            assert(trim(lines(t)[j]) == trim(ls[j]));
            assert(!is_otp_line(ls[j]));
        }
        assert(l1.map_values(set_otp(uri)) =~= l1);
        lemma_join_split(t);
        assert(join_lines(l1) == join_lines(st).push('\n') + uri) by {
            assert(l1.drop_last() =~= st);
        }
    }
}

/// Joined lines without a carriage return hold none.
proof fn lemma_join_avoids(ls: Seq<Seq<char>>, i: int)
    requires
        forall|a: int, b: int| 0 <= a < ls.len() && 0 <= b < ls[a].len() ==> #[trigger] ls[a][b] != '\r',
        0 <= i < join_lines(ls).len(),
    ensures
        join_lines(ls)[i] != '\r',
    decreases ls.len(),
{
    if ls.len() == 1 {
        assert(ls[0][i] != '\r');
    } else if ls.len() > 1 {
        let head = join_lines(ls.drop_last());
        if i < head.len() {
            lemma_join_avoids(ls.drop_last(), i);
        } else if i > head.len() {
            assert(ls.last()[i - head.len() - 1] != '\r');
        }
    }
}

/// Lines of which one holds a one-time-password URI have a first such line.
proof fn lemma_first_otp_none_exists(ls: Seq<Seq<char>>, k: int)
    requires
        0 <= k < ls.len(),
        is_otp_line(ls[k]),
    ensures
        first_otp(ls) is Some,
{
    if first_otp(ls) is None {
        lemma_first_otp_none(ls);
    }
}

/// `existing` without trailing white space.
fn trim_end_chars(s: &Vec<char>) -> (t: Vec<char>)
    ensures
        t@ == trim_end(s@),
{
    let mut j = s.len();
    assert(s@.take(j as int) =~= s@);
    while j > 0 && crate::text::white(s[j - 1])
        invariant
            j <= s.len(),
            trim_end(s@) == trim_end(s@.take(j as int)),
        decreases j,
    {
        assert(s@.take(j as int).drop_last() =~= s@.take(j - 1));
        j = j - 1;
    }
    crate::text::slice_chars(s, 0, j)
}

/// Sets the one-time-password URI of a password entry (see `merged`).
pub fn merge_otp(existing: &str, uri: &str) -> (content: String)
    ensures
        content@ == merged(existing@, uri@),
{
    let text = chars_of(existing);
    let u = chars_of(uri);
    if find_otp_uri(existing).is_some() {
        let ls = lines_of(&text);
        let ghost all = seqs(ls@);
        let ghost mapped = all.map_values(set_otp(uri@));
        let prefix = vec!['o', 't', 'p', 'a', 'u', 't', 'h', ':', '/', '/'];
        let mut out: Vec<char> = Vec::new();
        for i in 0..ls.len()
            invariant
                all == seqs(ls@),
                mapped == all.map_values(set_otp(uri@)),
                u@ == uri@,
                prefix@ == otpauth_prefix(),
                out@ == join_lines(mapped.take(i as int)),
        {
            let t = trim_chars(&ls[i]);
            if i > 0 {
                out.push('\n');
            }
            if has_prefix(&t, &prefix) {
                append_chars(&mut out, &u);
            } else {
                append_chars(&mut out, &ls[i]);
            }
            assert(mapped.take(i + 1).drop_last() =~= mapped.take(i as int));
            if i == 0 {
                assert(out@ =~= join_lines(mapped.take(1)));
            }
        }
        assert(mapped.take(ls.len() as int) =~= mapped);
        string_of(&out)
    } else {
        let t = trim_end_chars(&text);
        if t.len() == 0 {
            string_of(&u)
        } else {
            let mut out = t;
            out.push('\n');
            append_chars(&mut out, &u);
            string_of(&out)
        }
    }
}


/// Bytes that percent-encoding leaves as they are.
pub open spec fn unreserved(b: u8) -> bool {
    (48 <= b <= 57) || (65 <= b <= 90) || (97 <= b <= 122) || b == 45 || b == 46 || b == 95 || b == 126
}

/// The upper-case hexadecimal digit for `d` (below sixteen).
pub open spec fn hex_digit(d: int) -> char {
    seq!['0', '1', '2', '3', '4', '5', '6', '7', '8', '9', 'A', 'B', 'C', 'D', 'E', 'F'][d]
}

/// Percent-encoding of bytes: unreserved bytes stay, others become `%XX`.
pub open spec fn percent_encoded(b: Seq<u8>) -> Seq<char>
    decreases b.len(),
{
    if b.len() == 0 {
        Seq::empty()
    } else {
        let x = b.last();
        percent_encoded(b.drop_last()) + if unreserved(x) {
            seq![x as char]
        } else {
            seq!['%', hex_digit(x as int / 16), hex_digit(x as int % 16)]
        }
    }
}

/// The value of a hexadecimal digit (either case).
pub open spec fn hex_value(b: u8) -> Option<u8> {
    if 48 <= b <= 57 {
        Some((b - 48) as u8)
    } else if 65 <= b <= 70 {
        Some((b - 55) as u8)
    } else if 97 <= b <= 102 {
        Some((b - 87) as u8)
    } else {
        None
    }
}

/// Percent-decoding of bytes: `%` and two hexadecimal digits give one byte;
/// everything else (a `%` without two digits too) stays.
pub open spec fn percent_decoded(d: Seq<u8>) -> Seq<u8>
    decreases d.len(),
{
    if d.len() == 0 {
        Seq::empty()
    } else if d[0] == 37 && d.len() >= 3 && hex_value(d[1]) is Some && hex_value(d[2]) is Some {
        seq![(hex_value(d[1]).unwrap() * 16 + hex_value(d[2]).unwrap()) as u8] + percent_decoded(d.skip(3))
    } else {
        seq![d[0]] + percent_decoded(d.skip(1))
    }
}

/// `urlencoding::encode`: percent-encodes the UTF-8 bytes of `s`, keeping
/// ASCII letters, digits and `-`, `.`, `_`, `~`.
#[verifier::external_body]
fn url_encode(s: &str) -> (e: String)
    ensures
        e@ == percent_encoded(encode_utf8(s@)),
{
    urlencoding::encode(s).into_owned()
}

/// `urlencoding::decode`: percent-decodes the UTF-8 bytes of `s`; the result
/// is there when the decoded bytes are UTF-8.
#[verifier::external_body]
fn url_decode(s: &str) -> (d: Option<String>)
    ensures
        d is Some <==> valid_utf8(percent_decoded(encode_utf8(s@))),
        d matches Some(t) ==> t@ == decode_utf8(percent_decoded(encode_utf8(s@))),
{
    match urlencoding::decode(s) {
        Ok(c) => Some(c.into_owned()),
        Err(_) => None,
    }
}

/// What `str::to_uppercase` makes of a text (Unicode upper-case mapping).
pub uninterp spec fn upper_case(s: Seq<char>) -> Seq<char>;

/// `str::to_uppercase`.
#[verifier::external_body]
fn to_upper(s: &str) -> (u: String)
    ensures
        u@ == upper_case(s@),
{
    s.to_uppercase()
}

#[verifier::external_type_specification]
#[verifier::external_body]
pub struct ExTotp(totp_rs::TOTP);

/// A one-time-password generator read from an `otpauth://` URI.
struct OtpAuth {
    totp: totp_rs::TOTP,
    uri: String,
    step: u64,
    issuer: Option<String>,
}

impl OtpAuth {
    /// The URI the generator was read from.
    spec fn source(&self) -> Seq<char> {
        self.uri@
    }
}

/// What `TOTP::from_url` makes of a URI: the step and issuer of the
/// generator, or the text of the error.
pub uninterp spec fn totp_from_url(uri: Seq<char>) -> Result<(u64, Option<Seq<char>>), Seq<char>>;

/// The code that the generator read from `uri` gives at `time`
/// (`TOTP::generate`).
pub uninterp spec fn totp_code(uri: Seq<char>, time: u64) -> Seq<char>;

/// What `url::Url::parse` gives as the scheme and the host (`host_str`) of
/// the URI (none when it does not parse).
pub uninterp spec fn url_scheme_host(uri: Seq<char>) -> Option<(Seq<char>, Option<Seq<char>>)>;

/// The scheme name `otpauth`.
pub open spec fn otpauth_scheme() -> Seq<char> {
    seq!['o', 't', 'p', 'a', 'u', 't', 'h']
}

/// The beginning of a time-based one-time-password URI.
pub open spec fn otpauth_totp_prefix() -> Seq<char> {
    otpauth_prefix() + seq!['t', 'o', 't', 'p', '/']
}

/// The URI parses as an `otpauth` URL without a host: `TOTP::from_url`
/// panics on it (it unwraps the missing host).
pub open spec fn hostless_otpauth(uri: Seq<char>) -> bool {
    url_scheme_host(uri) matches Some(p) && p.0 == otpauth_scheme() && p.1 is None
}

/// `Url::parse(uri)`, with the parsed URL's `scheme()` and `host_str()`.
/// Claimed besides: text that begins with `otpauth://totp/` and parses has
/// the host `totp` (the parser reads the host of a URL with `//` up to the
/// next `/`, and a host that is not empty is kept).
#[verifier::external_body]
fn parse_url_scheme_host(uri: &str) -> (r: Option<(String, Option<String>)>)
    ensures
        match r {
            None => url_scheme_host(uri@) is None,
            Some(p) => url_scheme_host(uri@) == Some((p.0@, opt_text(p.1))),
        },
        starts_with(uri@, otpauth_totp_prefix()) ==> (r matches Some(p) ==> opt_text(p.1) == Some(
            seq!['t', 'o', 't', 'p'],
        )),
{
    match url::Url::parse(uri) {
        Ok(u) => Some((u.scheme().to_string(), u.host_str().map(|h| h.to_string()))),
        Err(_) => None,
    }
}

/// Whether the URI parses as an `otpauth` URL without a host.
fn is_hostless_otpauth(uri: &str) -> (b: bool)
    ensures
        b == hostless_otpauth(uri@),
{
    match parse_url_scheme_host(uri) {
        None => false,
        Some(p) => {
            let scheme = vec!['o', 't', 'p', 'a', 'u', 't', 'h'];
            crate::text::same_chars(&chars_of(p.0.as_str()), &scheme) && p.1.is_none()
        },
    }
}

/// `TOTP::from_url`, with the generator's step and issuer, or the error's
/// text (on a URI that it does not panic on).
#[verifier::external_body]
fn parse_otpauth(uri: &str) -> (r: Result<OtpAuth, String>)
    requires
        !hostless_otpauth(uri@),
    ensures
        match r {
            Ok(a) => totp_from_url(uri@) == Ok::<(u64, Option<Seq<char>>), Seq<char>>((a.step, opt_text(a.issuer)))
                && a.source() == uri@,
            Err(e) => totp_from_url(uri@) == Err::<(u64, Option<Seq<char>>), Seq<char>>(e@),
        },
{
    match totp_rs::TOTP::from_url(uri) {
        Ok(t) => Ok(OtpAuth { step: t.step, issuer: t.issuer.clone(), totp: t, uri: uri.to_string() }),
        Err(e) => Err(e.to_string()),
    }
}

/// `TOTP::generate`: the code at `time` (it divides by the step).
#[verifier::external_body]
fn generate_code(a: &OtpAuth, time: u64) -> (code: String)
    requires
        a.step > 0,
    ensures
        code@ == totp_code(a.source(), time),
{
    a.totp.generate(time)
}

/// What `url::Url::parse` gives as the path of the URI (none when it does
/// not parse).
pub uninterp spec fn url_path(uri: Seq<char>) -> Option<Seq<char>>;

/// `Url::parse(uri)` and the parsed URL's `path()`.
#[verifier::external_body]
fn parse_url_path(uri: &str) -> (p: Option<String>)
    ensures
        opt_text(p) == url_path(uri@),
{
    match url::Url::parse(uri) {
        Ok(u) => Some(u.path().to_string()),
        Err(_) => None,
    }
}


/// A one-time password and how long it stays valid.
#[derive(Debug)]
pub struct TotpCode {
    pub code: String,
    pub remaining_seconds: u64,
    pub period: u64,
}

/// What a one-time-password URI names.
#[derive(Debug)]
pub struct TotpInfo {
    pub issuer: Option<String>,
    pub account: Option<String>,
    pub uri: String,
}

/// `s` without its leading `c`s.
pub open spec fn strip_leading(s: Seq<char>, c: char) -> Seq<char>
    decreases s.len(),
{
    if s.len() > 0 && s[0] == c {
        strip_leading(s.drop_first(), c)
    } else {
        s
    }
}

/// The position of the first `c` in `s`, or its length.
pub open spec fn first_index(s: Seq<char>, c: char) -> int
    decreases s.len(),
{
    if s.len() == 0 {
        0
    } else if s[0] == c {
        0
    } else {
        1 + first_index(s.drop_first(), c)
    }
}

/// What follows the first `:` of `s`, or all of `s` when it has none.
pub open spec fn after_colon(s: Seq<char>) -> Seq<char> {
    if first_index(s, ':') < s.len() {
        s.skip(first_index(s, ':') + 1)
    } else {
        s
    }
}

/// The percent-decoded text, or the text itself where the decoded bytes are
/// not UTF-8.
pub open spec fn decoded_or_same(a: Seq<char>) -> Seq<char> {
    if valid_utf8(percent_decoded(encode_utf8(a))) {
        decode_utf8(percent_decoded(encode_utf8(a)))
    } else {
        a
    }
}

/// The account named by the path of a one-time-password URI: the path
/// without leading slashes, after the issuer's `:` if there is one,
/// percent-decoded; none for an empty path or a URI that does not parse.
pub open spec fn account_of(path: Option<Seq<char>>) -> Option<Seq<char>> {
    match path {
        None => None,
        Some(p) => {
            let q = strip_leading(p, '/');
            if q.len() == 0 {
                None
            } else {
                Some(decoded_or_same(after_colon(q)))
            }
        },
    }
}

proof fn lemma_first_index(s: Seq<char>, c: char)
    ensures
        0 <= first_index(s, c) <= s.len(),
        first_index(s, c) < s.len() ==> s[first_index(s, c)] == c,
        forall|j: int| 0 <= j < first_index(s, c) ==> s[j] != c,
    decreases s.len(),
{
    if s.len() > 0 && s[0] != c {
        lemma_first_index(s.drop_first(), c);
        assert forall|j: int| 0 <= j < first_index(s, c) implies s[j] != c by {
            if j > 0 {
                assert(s[j] == s.drop_first()[j - 1]);
            }
        }
    }
}

/// The account named by the URI's path (see `account_of`).
fn account_from_path(path: Option<String>) -> (a: Option<String>)
    ensures
        opt_text(a) == account_of(opt_text(path)),
{
    match path {
        None => None,
        Some(p) => {
            let cs = chars_of(p.as_str());
            let mut i: usize = 0;
            assert(cs@.skip(0) =~= cs@);
            while i < cs.len() && cs[i] == '/'
                invariant
                    i <= cs.len(),
                    strip_leading(cs@, '/') == strip_leading(cs@.skip(i as int), '/'),
                decreases cs.len() - i,
            {
                assert(cs@.skip(i as int).drop_first() =~= cs@.skip(i + 1));
                i = i + 1;
            }
            let q = crate::text::slice_chars(&cs, i, cs.len());
            assert(q@ =~= cs@.skip(i as int));
            if q.len() == 0 {
                return None;
            }
            let ghost qs = q@;
            proof {
                lemma_first_index(qs, ':');
            }
            let mut k: usize = 0;
            while k < q.len() && q[k] != ':'
                invariant
                    qs == q@,
                    k <= q.len(),
                    forall|j: int| 0 <= j < k ==> qs[j] != ':',
                    0 <= first_index(qs, ':') <= qs.len(),
                    first_index(qs, ':') < qs.len() ==> qs[first_index(qs, ':')] == ':',
                    forall|j: int| 0 <= j < first_index(qs, ':') ==> qs[j] != ':',
                decreases q.len() - k,
            {
                k = k + 1;
            }
            proof {
                let m = first_index(qs, ':');
                if (k as int) < m {
                    assert(qs[k as int] != ':');
                } else if m < k {
                    assert(qs[m] != ':');
                }
            }
            let acct = if k < q.len() {
                crate::text::slice_chars(&q, k + 1, q.len())
            } else {
                q
            };
            assert(acct@ =~= after_colon(qs));
            let acct_s = string_of(&acct);
            match url_decode(acct_s.as_str()) {
                Some(d) => Some(d),
                None => Some(acct_s),
            }
        },
    }
}

/// The reply for a generator with step `step` (not zero) that gave `code`
/// at `now`: the code, the seconds it stays valid, the step, and what the
/// URI names (its issuer, and the account named by its parsed `path`).
pub fn totp_reply(code: String, step: u64, issuer: Option<String>, path: Option<String>, uri: &str, now: u64) -> (r: (TotpCode, TotpInfo))
    requires
        step > 0,
    ensures
        r.0.code@ == code@,
        r.0.period == step,
        r.0.remaining_seconds == step - now % step,
        opt_text(r.1.issuer) == opt_text(issuer),
        opt_text(r.1.account) == account_of(opt_text(path)),
        r.1.uri@ == uri@,
{
    let remaining = step - (now % step);
    let account = account_from_path(path);
    (
        TotpCode { code, remaining_seconds: remaining, period: step },
        TotpInfo { issuer, account, uri: uri.to_owned() },
    )
}

fn codes_from(a: &OtpAuth, uri: &str, now: u64) -> (r: (TotpCode, TotpInfo))
    requires
        a.step > 0,
        a.source() == uri@,
    ensures
        r.0.code@ == totp_code(uri@, now),
        r.0.period == a.step,
        r.0.remaining_seconds == a.step - now % a.step,
        opt_text(r.1.issuer) == opt_text(a.issuer),
        opt_text(r.1.account) == account_of(url_path(uri@)),
        r.1.uri@ == uri@,
{
    let code = generate_code(a, now);
    let issuer = match &a.issuer {
        Some(i) => Some(i.clone()),
        None => None,
    };
    totp_reply(code, a.step, issuer, parse_url_path(uri), uri, now)
}

/// The URI is read without error into a generator whose step is zero.
pub open spec fn zero_step(uri: Seq<char>) -> bool {
    totp_from_url(uri) matches Ok(p) && p.0 == 0
}

/// What `generate_from_uri` gives for `uri` at `now` (see there).
pub open spec fn generate_outcome(r: Result<(TotpCode, TotpInfo), PasseroError>, uri: Seq<char>, now: u64) -> bool {
    match totp_from_url(uri) {
        Err(e) => r matches Err(PasseroError::TotpError(m)) && m@ == "Invalid otpauth URI: "@ + e,
        Ok(p) => r matches Ok(v) && v.0.code@ == totp_code(uri, now) && v.0.period == p.0
            && v.0.remaining_seconds == p.0 - now % p.0 && opt_text(v.1.issuer) == p.1
            && opt_text(v.1.account) == account_of(url_path(uri)) && v.1.uri@ == uri,
    }
}

/// The code at `now` and what the URI names; a URI that does not read as a
/// generator is refused with `TotpError("Invalid otpauth URI: <reason>")`.
pub fn generate_from_uri(uri: &str, now: u64) -> (r: Result<(TotpCode, TotpInfo), PasseroError>)
    requires
        !hostless_otpauth(uri@),
        !zero_step(uri@),
    ensures
        generate_outcome(r, uri@, now),
{
    match parse_otpauth(uri) {
        Ok(a) => Ok(codes_from(&a, uri, now)),
        Err(e) => {
            let mut m = chars_of("Invalid otpauth URI: ");
            append_str(&mut m, e.as_str());
            Err(PasseroError::TotpError(string_of(&m)))
        },
    }
}

/// As `generate_from_uri`, for any URI: none when the URI is an `otpauth`
/// URL without a host (which the generator cannot be read from) or reads
/// into a generator with a zero step (which cannot give codes).
pub fn try_generate_from_uri(uri: &str, now: u64) -> (r: Option<Result<(TotpCode, TotpInfo), PasseroError>>)
    ensures
        r is None <==> (hostless_otpauth(uri@) || zero_step(uri@)),
        r matches Some(v) ==> generate_outcome(v, uri@, now),
{
    if is_hostless_otpauth(uri) {
        return None;
    }
    match parse_otpauth(uri) {
        Ok(a) => {
            if a.step == 0 {
                return None;
            }
        },
        Err(_) => {},
    }
    Some(generate_from_uri(uri, now))
}

/// The label of a one-time-password URI: `issuer:account`, or the account;
/// the account is `unknown` when none is given.
pub open spec fn otp_label(issuer: Option<Seq<char>>, account: Option<Seq<char>>) -> Seq<char> {
    let acct = match account {
        Some(a) => a,
        None => "unknown"@,
    };
    match issuer {
        Some(i) => i + ":"@ + acct,
        None => acct,
    }
}

/// `s` without spaces.
pub open spec fn without_spaces(s: Seq<char>) -> Seq<char> {
    s.filter(|c: char| c != ' ')
}

/// The secret that goes into a one-time-password URI is the given one with
/// every space removed and nothing else changed: it holds no space, the
/// empty text gives the empty text, and each further character is kept
/// unless it is a space.
pub proof fn lemma_without_spaces(s: Seq<char>, c: char)
    ensures
        forall|i: int| 0 <= i < without_spaces(s).len() ==> without_spaces(s)[i] != ' ',
        without_spaces(Seq::<char>::empty()) == Seq::<char>::empty(),
        without_spaces(s.push(c)) == (if c == ' ' {
            without_spaces(s)
        } else {
            without_spaces(s).push(c)
        }),
        without_spaces(s).len() <= s.len(),
{
    reveal_with_fuel(Seq::filter, 1);
    assert(s.push(c).drop_last() =~= s);
    assert(Seq::<char>::empty().filter(|c: char| c != ' ') =~= Seq::<char>::empty());
    s.filter_lemma(|c: char| c != ' ');
    s.lemma_filter_len(|c: char| c != ' ');
}

/// The `otpauth://totp/` URI for a secret: the percent-encoded label, the
/// secret without spaces in upper case, and the percent-encoded issuer.
pub open spec fn otp_uri(secret: Seq<char>, issuer: Option<Seq<char>>, account: Option<Seq<char>>) -> Seq<char> {
    "otpauth://totp/"@ + percent_encoded(encode_utf8(otp_label(issuer, account))) + "?secret="@
        + upper_case(without_spaces(secret)) + match issuer {
        Some(i) => "&issuer="@ + percent_encoded(encode_utf8(i)),
        None => Seq::empty(),
    }
}

/// The `otpauth://totp/` URI for a secret (see `otp_uri`).
pub fn build_otp_uri(secret: &str, issuer: &Option<String>, account: &Option<String>) -> (uri: String)
    ensures
        uri@ == otp_uri(secret@, opt_text(*issuer), opt_text(*account)),
{
    let mut label: Vec<char> = match issuer {
        Some(i) => {
            let mut l = chars_of(i.as_str());
            l.push(':');
            l
        },
        None => Vec::new(),
    };
    match account {
        Some(a) => append_str(&mut label, a.as_str()),
        None => append_str(&mut label, "unknown"),
    }
    proof {
        reveal_strlit(":");
        assert(":"@ =~= seq![':']);
    }
    assert(label@ =~= otp_label(opt_text(*issuer), opt_text(*account)));
    let label_s = string_of(&label);
    let sc = chars_of(secret);
    let mut bare: Vec<char> = Vec::new();
    for k in 0..sc.len()
        invariant
            bare@ == without_spaces(sc@.take(k as int)),
    {
        assert(sc@.take(k + 1).drop_last() =~= sc@.take(k as int));
        reveal_with_fuel(Seq::filter, 1);
        if sc[k] != ' ' {
            bare.push(sc[k]);
        }
    }
    assert(sc@.take(sc.len() as int) =~= sc@);
    let upper = to_upper(string_of(&bare).as_str());
    let mut out = chars_of("otpauth://totp/");
    append_str(&mut out, url_encode(label_s.as_str()).as_str());
    append_str(&mut out, "?secret=");
    append_str(&mut out, upper.as_str());
    match issuer {
        Some(i) => {
            append_str(&mut out, "&issuer=");
            append_str(&mut out, url_encode(i.as_str()).as_str());
        },
        None => {},
    }
    assert(out@ =~= otp_uri(secret@, opt_text(*issuer), opt_text(*account)));
    string_of(&out)
}

/// The entry after a one-time-password secret was added to it: the URI for
/// the secret, checked by reading it into a generator (refused with
/// `TotpError("Invalid TOTP parameters: <reason>")`), merged into the
/// entry's text.
pub fn insert_totp(existing: &str, secret: &str, issuer: &Option<String>, account: &Option<String>) -> (r: Result<String, PasseroError>)
    ensures
        match totp_from_url(otp_uri(secret@, opt_text(*issuer), opt_text(*account))) {
            Err(e) => r matches Err(PasseroError::TotpError(m)) && m@ == "Invalid TOTP parameters: "@ + e,
            Ok(_) => r matches Ok(c) && c@ == merged(existing@, otp_uri(secret@, opt_text(*issuer), opt_text(*account))),
        },
{
    let uri = build_otp_uri(secret, issuer, account);
    // The URI begins with `otpauth://totp/`, so it has a host.
    let _host = parse_url_scheme_host(uri.as_str());
    proof {
        reveal_strlit("otpauth://totp/");
        assert(uri@.take(15) =~= otpauth_totp_prefix());
    }
    match parse_otpauth(uri.as_str()) {
        Err(e) => {
            let mut m = chars_of("Invalid TOTP parameters: ");
            append_str(&mut m, e.as_str());
            Err(PasseroError::TotpError(string_of(&m)))
        },
        Ok(_) => Ok(merge_otp(existing, uri.as_str())),
    }
}

/// What reading a QR code's content as a one-time-password URI gives: the
/// content, or the error's text. It must begin with `otpauth://` and read
/// as a generator.
pub open spec fn qr_verdict(content: Seq<char>) -> Result<Seq<char>, Seq<char>> {
    if !starts_with(content, otpauth_prefix()) {
        Err("QR code does not contain an otpauth:// URI"@)
    } else {
        match totp_from_url(content) {
            Err(e) => Err("Invalid otpauth URI in QR: "@ + e),
            Ok(_) => Ok(content),
        }
    }
}

/// `r` is `Ok` with the text of `v`'s `Ok`, or a `TotpError` with the text
/// of `v`'s `Err`.
pub open spec fn totp_outcome(r: Result<String, PasseroError>, v: Result<Seq<char>, Seq<char>>) -> bool {
    match v {
        Ok(u) => r matches Ok(s) && s@ == u,
        Err(m) => r matches Err(PasseroError::TotpError(t)) && t@ == m,
    }
}

/// The one-time-password URI read from a QR code (see `qr_verdict`).
pub fn qr_otp_uri(content: String) -> (r: Result<String, PasseroError>)
    requires
        !(starts_with(content@, otpauth_prefix()) && hostless_otpauth(content@)),
    ensures
        totp_outcome(r, qr_verdict(content@)),
{
    let prefix = vec!['o', 't', 'p', 'a', 'u', 't', 'h', ':', '/', '/'];
    if !has_prefix(&chars_of(content.as_str()), &prefix) {
        return Err(PasseroError::TotpError("QR code does not contain an otpauth:// URI".to_owned()));
    }
    match parse_otpauth(content.as_str()) {
        Err(e) => {
            let mut m = chars_of("Invalid otpauth URI in QR: ");
            append_str(&mut m, e.as_str());
            Err(PasseroError::TotpError(string_of(&m)))
        },
        Ok(_) => Ok(content),
    }
}

/// What decoding an image gives: the error's text when
/// `image::load_from_memory` cannot read it; else, for each QR grid that
/// `rqrr` detects in its grey-scale version, in the order found, the grid's
/// content or the error's text of decoding it.
pub uninterp spec fn qr_payloads(image: Seq<u8>) -> Result<Seq<Result<Seq<char>, Seq<char>>>, Seq<char>>;

/// The texts held by decoded payloads.
pub open spec fn payload_views(v: Seq<Result<String, String>>) -> Seq<Result<Seq<char>, Seq<char>>> {
    Seq::new(
        v.len(),
        |i: int|
            match v[i] {
                Ok(c) => Ok::<Seq<char>, Seq<char>>(c@),
                Err(e) => Err::<Seq<char>, Seq<char>>(e@),
            },
    )
}

/// `image::load_from_memory`, `to_luma8`, `rqrr::PreparedImage::prepare`,
/// `detect_grids`, and `decode` of each grid (see `qr_payloads`).
#[verifier::external_body]
fn decode_qr_grids(image: &[u8]) -> (r: Result<Vec<Result<String, String>>, String>)
    ensures
        match r {
            Ok(v) => qr_payloads(image@) == Ok::<Seq<Result<Seq<char>, Seq<char>>>, Seq<char>>(payload_views(v@)),
            Err(e) => qr_payloads(image@) == Err::<Seq<Result<Seq<char>, Seq<char>>>, Seq<char>>(e@),
        },
{
    let img = image::load_from_memory(image).map_err(|e| e.to_string())?;
    let mut prepared = rqrr::PreparedImage::prepare(img.to_luma8());
    let mut out = Vec::new();
    for grid in prepared.detect_grids() {
        out.push(match grid.decode() {
            Ok((_meta, content)) => Ok(content),
            Err(e) => Err(e.to_string()),
        });
    }
    Ok(out)
}

/// What reading the one-time-password URI of an image's first QR code
/// gives: the image must read (`Failed to open image: <reason>`), hold a QR
/// code (`No QR code found in image`) whose first one decodes (`Failed to
/// decode QR: <reason>`), and its content must pass `qr_verdict`; none for
/// content that begins with `otpauth://` but has no host (which the
/// generator cannot be read from).
pub open spec fn qr_image_verdict(image: Seq<u8>) -> Option<Result<Seq<char>, Seq<char>>> {
    match qr_payloads(image) {
        Err(e) => Some(Err("Failed to open image: "@ + e)),
        Ok(ps) => if ps.len() == 0 {
            Some(Err("No QR code found in image"@))
        } else {
            match ps[0] {
                Err(e) => Some(Err("Failed to decode QR: "@ + e)),
                Ok(c) => if starts_with(c, otpauth_prefix()) && hostless_otpauth(c) {
                    None
                } else {
                    Some(qr_verdict(c))
                },
            }
        },
    }
}

/// The one-time-password URI of the first QR code in an image (see
/// `qr_image_verdict`).
pub fn qr_uri_from_image(image: &[u8]) -> (r: Option<Result<String, PasseroError>>)
    ensures
        r is None <==> qr_image_verdict(image@) is None,
        r matches Some(x) ==> totp_outcome(x, qr_image_verdict(image@).unwrap()),
{
    match decode_qr_grids(image) {
        Err(e) => {
            let mut m = chars_of("Failed to open image: ");
            append_str(&mut m, e.as_str());
            Some(Err(PasseroError::TotpError(string_of(&m))))
        },
        Ok(ps) => {
            if ps.len() == 0 {
                return Some(Err(PasseroError::TotpError("No QR code found in image".to_owned())));
            }
            match &ps[0] {
                Err(e) => {
                    let mut m = chars_of("Failed to decode QR: ");
                    append_str(&mut m, e.as_str());
                    Some(Err(PasseroError::TotpError(string_of(&m))))
                },
                Ok(c) => {
                    let prefix = vec!['o', 't', 'p', 'a', 'u', 't', 'h', ':', '/', '/'];
                    if has_prefix(&chars_of(c.as_str()), &prefix) && is_hostless_otpauth(c.as_str()) {
                        return None;
                    }
                    Some(qr_otp_uri(c.clone()))
                },
            }
        },
    }
}

} // verus!
