use vstd::prelude::*;

use crate::order::{lemma_lex_asymmetric, lemma_lex_total, lex_less, lex_lt};
use crate::text::{chars_of, is_white, lines, lines_of, seqs, split_on, strip_cr, string_of, trim, trim_chars, trim_end, trim_start};

verus! {

broadcast use vstd::seq_lib::group_to_multiset_ensures;

/// The texts held by a sequence of strings.
pub open spec fn texts(v: Seq<String>) -> Seq<Seq<char>> {
    Seq::new(v.len(), |i: int| v[i]@)
}

/// `s` is in ascending lexicographic order.
pub open spec fn sorted_texts(s: Seq<Seq<char>>) -> bool {
    forall|i: int, j: int| 0 <= i < j < s.len() ==> !lex_lt(#[trigger] s[j], #[trigger] s[i])
}

/// Inserting into a sequence adds one to the multiset of its items.
proof fn lemma_insert_multiset(s: Seq<Seq<char>>, pos: int, x: Seq<char>)
    requires
        0 <= pos <= s.len(),
    ensures
        s.insert(pos, x).to_multiset() =~= s.to_multiset().insert(x),
{
    let t = s.insert(pos, x);
    assert(t.remove(pos) =~= s);
    assert(t.remove(pos).to_multiset() =~= t.to_multiset().remove(t[pos]));
    assert(t.contains(x)) by {
        assert(t[pos] == x);
    }
    assert(t.to_multiset().count(x) > 0);
}

/// The texts of `v` in ascending order (the same texts, each as often).
pub fn sort_texts(v: Vec<Vec<char>>) -> (out: Vec<Vec<char>>)
    ensures
        sorted_texts(seqs(out@)),
        seqs(out@).to_multiset() == seqs(v@).to_multiset(),
{
    let mut out: Vec<Vec<char>> = Vec::new();
    let ghost src = seqs(v@);
    assert(seqs(out@) =~= src.take(0));
    for k in 0..v.len()
        invariant
            src == seqs(v@),
            sorted_texts(seqs(out@)),
            seqs(out@).to_multiset() == src.take(k as int).to_multiset(),
    {
        let x = v[k].clone();
        let mut pos: usize = 0;
        while pos < out.len() && !lex_less(&x, &out[pos])
            invariant
                pos <= out.len(),
                forall|j: int| 0 <= j < pos ==> !lex_lt(x@, #[trigger] seqs(out@)[j]),
            decreases out.len() - pos,
        {
            pos = pos + 1;
        }
        let ghost before = seqs(out@);
        out.insert(pos, x);
        proof {
            assert(seqs(out@) =~= before.insert(pos as int, x@));
            lemma_insert_multiset(before, pos as int, x@);
            assert(src.take(k + 1) =~= src.take(k as int).push(x@));
            let after = seqs(out@);
            assert forall|i: int, j: int| 0 <= i < j < after.len() implies !lex_lt(
                #[trigger] after[j],
                #[trigger] after[i],
            ) by {
                if i < pos && j == pos {
                    assert(!lex_lt(x@, before[i]));
                } else if i == pos && j > pos {
                    // x comes before the element that stopped the scan, and so
                    // before everything after it
                    assert(pos < before.len());
                    assert(lex_lt(x@, before[pos as int]));
                    if j - 1 > pos {
                        assert(!lex_lt(before[j - 1], before[pos as int]));
                        if before[j - 1] != before[pos as int] {
                            lemma_lex_total(before[j - 1], before[pos as int]);
                        }
                        if lex_lt(before[j - 1], x@) {
                            crate::order::lemma_lex_transitive(before[j - 1], x@, before[pos as int]);
                            if before[j - 1] == before[pos as int] {
                                crate::order::lemma_lex_irreflexive(before[j - 1]);
                            } else {
                                crate::order::lemma_lex_transitive(before[pos as int], before[j - 1], before[pos as int]);
                                crate::order::lemma_lex_irreflexive(before[pos as int]);
                            }
                        }
                    } else {
                        lemma_lex_asymmetric(x@, before[pos as int]);
                    }
                } else if i < pos && j > pos {
                    assert(after[i] == before[i]);
                    assert(after[j] == before[j - 1]);
                } else if j < pos {
                    assert(after[i] == before[i]);
                    assert(after[j] == before[j]);
                } else {
                    assert(after[i] == before[i - 1]);
                    assert(after[j] == before[j - 1]);
                }
            }
        }
    }
    assert(src.take(v.len() as int) =~= src);
    out
}


/// No component of the relative path `rel` begins with a dot.
pub open spec fn visible(rel: Seq<char>) -> bool {
    forall|i: int| 0 <= i < rel.len() && #[trigger] rel[i] == '.' ==> i > 0 && rel[i - 1] != '/'
}

/// The file is an encrypted entry: visible, and named `<stem>.gpg`.
pub open spec fn is_entry_file(rel: Seq<char>) -> bool {
    &&& visible(rel)
    &&& rel.len() >= 4
    &&& rel.subrange(rel.len() - 4, rel.len() as int) == seq!['.', 'g', 'p', 'g']
}

/// The entry name of such a file: its path without `.gpg`, with `/` for `\`.
pub open spec fn entry_of(rel: Seq<char>) -> Seq<char> {
    rel.take(rel.len() - 4).map_values(|c: char| if c == '\\' { '/' } else { c })
}

/// The entry names of the files (given by their paths relative to the
/// store), in the order of the files.
pub open spec fn listing(files: Seq<Seq<char>>) -> Seq<Seq<char>>
    decreases files.len(),
{
    if files.len() == 0 {
        Seq::empty()
    } else if is_entry_file(files.last()) {
        listing(files.drop_last()).push(entry_of(files.last()))
    } else {
        listing(files.drop_last())
    }
}

/// The entry name of `rel` when it is an entry file.
fn entry_name(rel: &Vec<char>) -> (r: Option<Vec<char>>)
    ensures
        r is Some <==> is_entry_file(rel@),
        r matches Some(n) ==> n@ == entry_of(rel@),
{
    let n = rel.len();
    let mut i: usize = 0;
    while i < n
        invariant
            n == rel.len(),
            i <= n,
            forall|k: int| 0 <= k < i && #[trigger] rel@[k] == '.' ==> k > 0 && rel@[k - 1] != '/',
        decreases n - i,
    {
        if rel[i] == '.' && (i == 0 || rel[i - 1] == '/') {
            return None;
        }
        i = i + 1;
    }
    if n < 4 || rel[n - 4] != '.' || rel[n - 3] != 'g' || rel[n - 2] != 'p' || rel[n - 1] != 'g' {
        proof {
            if n >= 4 {
                let tail = rel@.subrange(n - 4, n as int);
                if tail == seq!['.', 'g', 'p', 'g'] {
                    assert(tail[0] == rel@[n - 4]);
                    assert(tail[1] == rel@[n - 3]);
                    assert(tail[2] == rel@[n - 2]);
                    assert(tail[3] == rel@[n - 1]);
                }
            }
        }
        return None;
    }
    assert(rel@.subrange(n - 4, n as int) =~= seq!['.', 'g', 'p', 'g']);
    let mut out: Vec<char> = Vec::new();
    let mut k: usize = 0;
    while k < n - 4
        invariant
            n == rel.len(),
            n >= 4,
            k <= n - 4,
            out@ =~= rel@.take(k as int).map_values(|c: char| if c == '\\' { '/' } else { c }),
        decreases n - 4 - k,
    {
        let c = rel[k];
        out.push(if c == '\\' { '/' } else { c });
        assert(rel@.take(k + 1) =~= rel@.take(k as int).push(c));
        k = k + 1;
    }
    Some(out)
}

/// The entry names of a password store, given the paths (relative to the
/// store, with `/` between components) of all files below it: the files
/// named `<stem>.gpg` outside hidden files and directories, without `.gpg`,
/// in ascending order.
pub fn list(files: &Vec<String>) -> (entries: Vec<String>)
    ensures
        sorted_texts(texts(entries@)),
        texts(entries@).to_multiset() == listing(texts(files@)).to_multiset(),
{
    let ghost fs = texts(files@);
    let mut found: Vec<Vec<char>> = Vec::new();
    assert(fs.take(0) =~= Seq::<Seq<char>>::empty());
    for k in 0..files.len()
        invariant
            fs == texts(files@),
            seqs(found@) == listing(fs.take(k as int)),
    {
        let rel = chars_of(files[k].as_str());
        assert(fs.take(k + 1).drop_last() =~= fs.take(k as int));
        match entry_name(&rel) {
            Some(name) => {
                let ghost before = seqs(found@);
                found.push(name);
                assert(seqs(found@) =~= before.push(entry_of(rel@)));
            },
            None => {},
        }
    }
    assert(fs.take(files.len() as int) =~= fs);
    let sorted = sort_texts(found);
    let mut entries: Vec<String> = Vec::new();
    for k in 0..sorted.len()
        invariant
            texts(entries@) == seqs(sorted@).take(k as int),
    {
        let s = string_of(&sorted[k]);
        let ghost before = texts(entries@);
        entries.push(s);
        assert(texts(entries@) =~= before.push(s@));
        assert(seqs(sorted@).take(k + 1) =~= seqs(sorted@).take(k as int).push(sorted@[k as int]@));
    }
    assert(seqs(sorted@).take(sorted.len() as int) =~= seqs(sorted@));
    entries
}

/// The recipients named in the text of a `.gpg-id` file: its lines, trimmed,
/// without the empty ones.
pub open spec fn recipients(text: Seq<char>) -> Seq<Seq<char>> {
    lines(text).map_values(|l: Seq<char>| trim(l)).filter(|l: Seq<char>| l.len() > 0)
}

/// The recipients named in the text of a `.gpg-id` file.
pub fn recipients_for(gpg_id: &str) -> (ids: Vec<String>)
    ensures
        texts(ids@) == recipients(gpg_id@),
{
    let text = chars_of(gpg_id);
    let ls = lines_of(&text);
    let ghost trimmed = seqs(ls@).map_values(|l: Seq<char>| trim(l));
    let mut ids: Vec<String> = Vec::new();
    for k in 0..ls.len()
        invariant
            trimmed == seqs(ls@).map_values(|l: Seq<char>| trim(l)),
            texts(ids@) == trimmed.take(k as int).filter(|l: Seq<char>| l.len() > 0),
    {
        let t = trim_chars(&ls[k]);
        assert(trimmed.take(k + 1).drop_last() =~= trimmed.take(k as int));
        reveal_with_fuel(Seq::filter, 1);
        if t.len() > 0 {
            let s = string_of(&t);
            let ghost before = texts(ids@);
            ids.push(s);
            assert(texts(ids@) =~= before.push(s@));
        }
    }
    assert(trimmed.take(ls.len() as int) =~= trimmed);
    ids
}

/// The ids one per line, each line ended.
pub open spec fn id_lines(ids: Seq<Seq<char>>) -> Seq<char>
    decreases ids.len(),
{
    if ids.len() == 0 {
        Seq::empty()
    } else {
        id_lines(ids.drop_last()) + ids.last().push('\n')
    }
}

/// The text of a `.gpg-id` file naming `ids`: the ids joined by line feeds,
/// then a line feed (so a lone line feed when there are none).
pub open spec fn gpg_id_text(ids: Seq<Seq<char>>) -> Seq<char> {
    if ids.len() == 0 {
        seq!['\n']
    } else {
        id_lines(ids)
    }
}

/// The text of the `.gpg-id` file that `init` writes for `gpg_ids`.
pub fn gpg_id_contents(gpg_ids: &Vec<String>) -> (text: String)
    ensures
        text@ == gpg_id_text(texts(gpg_ids@)),
{
    let ghost ids = texts(gpg_ids@);
    let mut out: Vec<char> = Vec::new();
    for k in 0..gpg_ids.len()
        invariant
            ids == texts(gpg_ids@),
            out@ == id_lines(ids.take(k as int)),
    {
        let id = chars_of(gpg_ids[k].as_str());
        let ghost start = out@;
        let mut j: usize = 0;
        while j < id.len()
            invariant
                j <= id.len(),
                out@ == start + id@.take(j as int),
            decreases id.len() - j,
        {
            out.push(id[j]);
            assert(id@.take(j + 1) =~= id@.take(j as int).push(id@[j as int]));
            j = j + 1;
        }
        out.push('\n');
        assert(ids.take(k + 1).drop_last() =~= ids.take(k as int));
        assert(id@.take(id.len() as int) =~= id@);
        assert(out@ =~= id_lines(ids.take(k as int)) + ids[k as int].push('\n'));
    }
    assert(ids.take(gpg_ids.len() as int) =~= ids);
    if gpg_ids.len() == 0 {
        out.push('\n');
        assert(out@ =~= seq!['\n']);
    }
    string_of(&out)
}


/// Splitting after appending text without the separator extends the last
/// piece.
proof fn lemma_split_append(s: Seq<char>, w: Seq<char>, sep: char)
    requires
        forall|i: int| 0 <= i < w.len() ==> w[i] != sep,
    ensures
        split_on(s + w, sep) == split_on(s, sep).update(
            split_on(s, sep).len() - 1,
            split_on(s, sep).last() + w,
        ),
        split_on(s, sep).len() >= 1,
    decreases w.len(),
{
    crate::text::lemma_split_on_nonempty(s, sep);
    if w.len() == 0 {
        assert(s + w =~= s);
        assert(split_on(s, sep).last() + w =~= split_on(s, sep).last());
        assert(split_on(s, sep).update(split_on(s, sep).len() - 1, split_on(s, sep).last()) =~= split_on(s, sep));
    } else {
        let w0 = w.drop_last();
        lemma_split_append(s, w0, sep);
        assert((s + w).drop_last() =~= s + w0);
        assert((s + w).last() == w.last());
        crate::text::lemma_split_on_nonempty(s + w0, sep);
        let head = split_on(s + w0, sep);
        let base = split_on(s, sep);
        assert(w[w.len() - 1] != sep);
        assert(split_on(s + w, sep) == head.update(head.len() - 1, head.last().push(w.last())));
        assert(head.len() == base.len());
        assert(head.last() == base.last() + w0);
        assert((base.last() + w0).push(w.last()) =~= base.last() + w);
        assert(head.update(head.len() - 1, head.last().push(w.last())) =~= base.update(
            base.len() - 1,
            base.last() + w,
        ));
        assert(split_on(s, sep).last() + w0 + seq![w.last()] =~= split_on(s, sep).last() + w);
        assert(split_on(s + w, sep) =~= split_on(s, sep).update(
            split_on(s, sep).len() - 1,
            split_on(s, sep).last() + w,
        ));
    }
}

/// A key id that `.gpg-id` keeps as it is: not empty, on one line, without
/// surrounding white space.
pub open spec fn plain_id(id: Seq<char>) -> bool {
    &&& id.len() > 0
    &&& forall|i: int| 0 <= i < id.len() ==> id[i] != '\n'
    &&& trim(id) == id
}

/// A `.gpg-id` text splits at line feeds into its ids and an empty last piece.
proof fn lemma_split_gpg_id(ids: Seq<Seq<char>>)
    requires
        forall|k: int| 0 <= k < ids.len() ==> plain_id(#[trigger] ids[k]),
    ensures
        split_on(id_lines(ids), '\n') == ids.push(Seq::<char>::empty()),
    decreases ids.len(),
{
    if ids.len() == 0 {
        assert(id_lines(ids) =~= Seq::<char>::empty());
        assert(split_on(Seq::<char>::empty(), '\n') =~= ids.push(Seq::<char>::empty()));
    } else {
        let rest = ids.drop_last();
        assert forall|k: int| 0 <= k < rest.len() implies plain_id(#[trigger] rest[k]) by {
            assert(rest[k] == ids[k]);
        }
        lemma_split_gpg_id(rest);
        let id = ids.last();
        assert(plain_id(ids[ids.len() - 1]));
        let before = id_lines(rest);
        lemma_split_append(before, id, '\n');
        let t = id_lines(ids);
        assert(t =~= (before + id).push('\n'));
        assert(t.drop_last() =~= before + id);
        assert(split_on(before + id, '\n') =~= rest.push(id));
        assert(rest.push(id).push(Seq::<char>::empty()) =~= ids.push(Seq::<char>::empty()));
    }
}

/// Text that trims to itself does not end in white space.
proof fn lemma_trim_plain(id: Seq<char>)
    requires
        id.len() > 0,
        trim(id) == id,
    ensures
        !is_white(id.last()),
{
    if is_white(id.last()) {
        let s = trim_start(id);
        lemma_trim_start_suffix(id);
        if s.len() > 0 {
            assert(s.last() == id.last());
            assert(trim(id) == trim_end(s.drop_last()));
            lemma_trim_end_shorter(s.drop_last());
        } else {
            assert(trim(id) == s);
        }
    }
}

/// Trimming the start leaves a suffix.
proof fn lemma_trim_start_suffix(s: Seq<char>)
    ensures
        trim_start(s).len() <= s.len(),
        trim_start(s) == s.skip(s.len() - trim_start(s).len()),
    decreases s.len(),
{
    if s.len() > 0 && is_white(s[0]) {
        lemma_trim_start_suffix(s.drop_first());
        assert(s.drop_first().skip(s.drop_first().len() - trim_start(s).len()) =~= s.skip(
            s.len() - trim_start(s).len(),
        ));
    } else {
        assert(s.skip(0) =~= s);
    }
}

/// Trimming the end leaves no more than there was.
proof fn lemma_trim_end_shorter(s: Seq<char>)
    ensures
        trim_end(s).len() <= s.len(),
    decreases s.len(),
{
    if s.len() > 0 && is_white(s.last()) {
        lemma_trim_end_shorter(s.drop_last());
    }
}

/// What `init` writes to `.gpg-id`, `recipients_for` reads back: the same
/// key ids, in order (for ids that are not empty, on one line, and without
/// surrounding white space).
pub proof fn lemma_gpg_id_round_trip(ids: Seq<Seq<char>>)
    requires
        forall|k: int| 0 <= k < ids.len() ==> plain_id(#[trigger] ids[k]),
    ensures
        recipients(gpg_id_text(ids)) == ids,
{
    if ids.len() == 0 {
        let e = Seq::<char>::empty();
        assert(seq!['\n'].drop_last() =~= e);
        assert(split_on(e, '\n') =~= seq![e]);
        assert(seq!['\n'].last() == '\n');
        assert(split_on(seq!['\n'], '\n') == split_on(e, '\n').push(e));
        assert(split_on(seq!['\n'], '\n') =~= seq![e, e]);
        assert(lines(seq!['\n']) =~= seq![e]);
        assert(lines(seq!['\n']).map_values(|l: Seq<char>| trim(l)) =~= seq![e]);
        reveal_with_fuel(Seq::filter, 2);
        assert(seq![e].drop_last() =~= Seq::<Seq<char>>::empty());
        assert(seq![e].filter(|l: Seq<char>| l.len() > 0) =~= ids);
        return;
    }
    lemma_split_gpg_id(ids);
    let pieces = split_on(gpg_id_text(ids), '\n');
    assert(pieces.last().len() == 0);
    assert(pieces.drop_last() =~= ids);
    assert forall|k: int| 0 <= k < ids.len() implies strip_cr(#[trigger] ids[k]) == ids[k] by {
        lemma_trim_plain(ids[k]);
    }
    let ls = lines(gpg_id_text(ids));
    assert(ls =~= ids);
    let trimmed = ls.map_values(|l: Seq<char>| trim(l));
    assert(trimmed =~= ids);
    lemma_filter_all(ids);
}

/// Keeping the non-empty ids of non-empty ids keeps them all.
proof fn lemma_filter_all(ids: Seq<Seq<char>>)
    requires
        forall|k: int| 0 <= k < ids.len() ==> plain_id(#[trigger] ids[k]),
    ensures
        ids.filter(|l: Seq<char>| l.len() > 0) == ids,
    decreases ids.len(),
{
    reveal_with_fuel(Seq::filter, 1);
    if ids.len() > 0 {
        let rest = ids.drop_last();
        assert forall|k: int| 0 <= k < rest.len() implies plain_id(#[trigger] rest[k]) by {
            assert(rest[k] == ids[k]);
        }
        lemma_filter_all(rest);
        assert(plain_id(ids[ids.len() - 1]));
        assert(rest.push(ids.last()) =~= ids);
    } else {
        assert(ids.filter(|l: Seq<char>| l.len() > 0) =~= ids);
    }
}

} // verus!
