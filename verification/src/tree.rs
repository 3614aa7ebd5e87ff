use vstd::prelude::*;

use crate::order::{lemma_lex_asymmetric, lemma_lex_irreflexive, lemma_lex_total, lemma_lex_transitive, lex_lt, lex_less};
use crate::text::{chars_of, same_chars, seqs, split_chars, split_on, string_of};

verus! {

/// A node of the password tree: a directory (with its children) or an entry.
#[derive(Debug)]
pub struct PasswordEntry {
    pub path: String,
    pub name: String,
    pub is_dir: bool,
    pub children: Vec<PasswordEntry>,
}

/// Directories come first, then names in lexicographic order.
pub open spec fn key_before(d1: bool, n1: Seq<char>, d2: bool, n2: Seq<char>) -> bool {
    (d1 && !d2) || (d1 == d2 && lex_lt(n1, n2))
}

/// `a` comes before `b` in a level of the tree.
pub open spec fn entry_before(a: PasswordEntry, b: PasswordEntry) -> bool {
    key_before(a.is_dir, a.name@, b.is_dir, b.name@)
}

/// No node comes before itself.
pub proof fn lemma_key_irreflexive(d: bool, n: Seq<char>)
    ensures
        !key_before(d, n, d, n),
{
    lemma_lex_irreflexive(n);
}

/// The order of nodes is transitive.
pub proof fn lemma_key_transitive(
    d1: bool,
    n1: Seq<char>,
    d2: bool,
    n2: Seq<char>,
    d3: bool,
    n3: Seq<char>,
)
    requires
        key_before(d1, n1, d2, n2),
        key_before(d2, n2, d3, n3),
    ensures
        key_before(d1, n1, d3, n3),
{
    if d1 == d2 && d2 == d3 {
        lemma_lex_transitive(n1, n2, n3);
    }
}

/// Of two nodes that differ in kind or name, one comes before the other.
pub proof fn lemma_key_total(d1: bool, n1: Seq<char>, d2: bool, n2: Seq<char>)
    requires
        !(d1 == d2 && n1 == n2),
    ensures
        key_before(d1, n1, d2, n2) || key_before(d2, n2, d1, n1),
{
    if d1 == d2 {
        lemma_lex_total(n1, n2);
    }
}

/// Of two nodes, at most one comes before the other.
pub proof fn lemma_key_asymmetric(d1: bool, n1: Seq<char>, d2: bool, n2: Seq<char>)
    requires
        key_before(d1, n1, d2, n2),
    ensures
        !key_before(d2, n2, d1, n1),
{
    if d1 == d2 {
        lemma_lex_asymmetric(n1, n2);
    }
}

/// The path of a node named `name` below a directory whose path is `prefix`.
pub open spec fn join_path(prefix: Seq<char>, name: Seq<char>) -> Seq<char> {
    if prefix.len() == 0 {
        name
    } else {
        prefix.push('/') + name
    }
}

/// The path `segs` passes through a node named `name` whose ancestors are
/// named `anc`; the node is a directory when the path goes on below it.
pub open spec fn under(
    segs: Seq<Seq<char>>,
    anc: Seq<Seq<char>>,
    name: Seq<char>,
    is_dir: bool,
) -> bool {
    &&& segs.len() > anc.len()
    &&& segs.take(anc.len() as int) == anc
    &&& segs[anc.len() as int] == name
    &&& is_dir == (segs.len() > anc.len() + 1)
}

/// Some path of `all` passes through that node.
pub open spec fn wanted(
    all: Seq<Seq<Seq<char>>>,
    anc: Seq<Seq<char>>,
    name: Seq<char>,
    is_dir: bool,
) -> bool {
    exists|j: int| 0 <= j < all.len() && #[trigger] under(all[j], anc, name, is_dir)
}

/// The nodes of one level are in order, and no node is there twice.
pub open spec fn level_sorted(level: Seq<PasswordEntry>) -> bool {
    forall|i: int, j: int|
        0 <= i < j < level.len() ==> #[trigger] entry_before(level[i], level[j])
}

/// Every node of the level lies on some path.
pub open spec fn level_sound(
    level: Seq<PasswordEntry>,
    anc: Seq<Seq<char>>,
    all: Seq<Seq<Seq<char>>>,
) -> bool {
    forall|i: int|
        0 <= i < level.len() ==> wanted(all, anc, #[trigger] level[i].name@, level[i].is_dir)
}

/// Every node that some path passes through at this level is there.
pub open spec fn level_complete(
    level: Seq<PasswordEntry>,
    anc: Seq<Seq<char>>,
    all: Seq<Seq<Seq<char>>>,
) -> bool {
    forall|n: Seq<char>, d: bool|
        #[trigger] wanted(all, anc, n, d) ==> exists|i: int|
            0 <= i < level.len() && (#[trigger] level[i]).name@ == n && level[i].is_dir == d
}

/// Each node carries its full path; entries have no children.
pub open spec fn level_shaped(level: Seq<PasswordEntry>, prefix: Seq<char>) -> bool {
    forall|i: int|
        0 <= i < level.len() ==> {
            &&& (#[trigger] level[i]).path@ == join_path(prefix, level[i].name@)
            &&& !level[i].is_dir ==> level[i].children@.len() == 0
        }
}

/// `level` is the tree of the paths `all` below the directory named by `anc`
/// (whose path is `prefix`), with at most `depth` levels.
pub open spec fn forest(
    level: Seq<PasswordEntry>,
    anc: Seq<Seq<char>>,
    prefix: Seq<char>,
    all: Seq<Seq<Seq<char>>>,
    depth: nat,
) -> bool
    decreases depth,
{
    &&& level_sorted(level)
    &&& level_sound(level, anc, all)
    &&& level_complete(level, anc, all)
    &&& level_shaped(level, prefix)
    &&& forall|i: int|
        0 <= i < level.len() && (#[trigger] level[i]).is_dir ==> depth > 0 && forest(
            level[i].children@,
            anc.push(level[i].name@),
            level[i].path@,
            all,
            (depth - 1) as nat,
        )
}

pub proof fn lemma_wanted_push(
    all: Seq<Seq<Seq<char>>>,
    extra: Seq<Seq<char>>,
    anc: Seq<Seq<char>>,
    n: Seq<char>,
    d: bool,
)
    ensures
        wanted(all.push(extra), anc, n, d) == (wanted(all, anc, n, d) || under(extra, anc, n, d)),
{
    let bigger = all.push(extra);
    if wanted(bigger, anc, n, d) {
        let j = choose|j: int| 0 <= j < bigger.len() && #[trigger] under(bigger[j], anc, n, d);
        if j < all.len() {
            assert(under(all[j], anc, n, d));
        }
    }
    if wanted(all, anc, n, d) {
        let j = choose|j: int| 0 <= j < all.len() && #[trigger] under(all[j], anc, n, d);
        assert(under(bigger[j], anc, n, d));
    }
    if under(extra, anc, n, d) {
        assert(under(bigger[all.len() as int], anc, n, d));
    }
}

/// A path that does not go below `anc` changes nothing there.
pub proof fn lemma_forest_frame(
    level: Seq<PasswordEntry>,
    anc: Seq<Seq<char>>,
    prefix: Seq<char>,
    all: Seq<Seq<Seq<char>>>,
    depth: nat,
    extra: Seq<Seq<char>>,
)
    requires
        forest(level, anc, prefix, all, depth),
        !(extra.len() > anc.len() && extra.take(anc.len() as int) == anc),
    ensures
        forest(level, anc, prefix, all.push(extra), depth),
    decreases depth,
{
    let bigger = all.push(extra);
    assert forall|n: Seq<char>, d: bool| #[trigger]
        wanted(bigger, anc, n, d) == wanted(all, anc, n, d) by {
        lemma_wanted_push(all, extra, anc, n, d);
    }
    assert forall|i: int|
        0 <= i < level.len() && (#[trigger] level[i]).is_dir implies depth > 0 && forest(
            level[i].children@,
            anc.push(level[i].name@),
            level[i].path@,
            bigger,
            (depth - 1) as nat,
        ) by {
        let sub = anc.push(level[i].name@);
        if extra.len() > sub.len() && extra.take(sub.len() as int) == sub {
            assert(extra.take(anc.len() as int) =~= sub.take(anc.len() as int));
            assert(sub.take(anc.len() as int) =~= anc);
        }
        lemma_forest_frame(
            level[i].children@,
            sub,
            level[i].path@,
            all,
            (depth - 1) as nat,
            extra,
        );
    }
}

/// With no path below `anc`, the empty level is its tree.
pub proof fn lemma_forest_empty(
    anc: Seq<Seq<char>>,
    prefix: Seq<char>,
    all: Seq<Seq<Seq<char>>>,
    depth: nat,
)
    requires
        forall|n: Seq<char>, d: bool| !#[trigger] wanted(all, anc, n, d),
    ensures
        forest(Seq::<PasswordEntry>::empty(), anc, prefix, all, depth),
{
}


/// What the scan for a node's place in a sorted level tells.
pub proof fn lemma_scan_place(level: Seq<PasswordEntry>, i: int, d: bool, n: Seq<char>)
    requires
        level_sorted(level),
        0 <= i <= level.len(),
        forall|j: int| 0 <= j < i ==> key_before(#[trigger] level[j].is_dir, level[j].name@, d, n),
        i < level.len() ==> !key_before(level[i].is_dir, level[i].name@, d, n),
        i < level.len() ==> !(level[i].is_dir == d && level[i].name@ == n),
    ensures
        forall|c: int| 0 <= c < level.len() ==> !((#[trigger] level[c]).is_dir == d && level[c].name@ == n),
        forall|c: int| i <= c < level.len() ==> key_before(d, n, (#[trigger] level[c]).is_dir, level[c].name@),
{
    if i < level.len() {
        lemma_key_total(level[i].is_dir, level[i].name@, d, n);
        assert forall|c: int| i <= c < level.len() implies key_before(d, n, (#[trigger] level[c]).is_dir, level[c].name@) by {
            if c > i {
                assert(entry_before(level[i], level[c]));
                lemma_key_transitive(d, n, level[i].is_dir, level[i].name@, level[c].is_dir, level[c].name@);
            }
        }
    }
    assert forall|c: int| 0 <= c < level.len() implies !((#[trigger] level[c]).is_dir == d && level[c].name@ == n) by {
        if c < i {
            lemma_key_irreflexive(d, n);
        } else {
            lemma_key_irreflexive(d, n);
        }
    }
}

/// Two nodes of a sorted level with the same kind and name are one node.
pub proof fn lemma_sorted_unique(level: Seq<PasswordEntry>, a: int, b: int)
    requires
        level_sorted(level),
        0 <= a < level.len(),
        0 <= b < level.len(),
        level[a].is_dir == level[b].is_dir,
        level[a].name@ == level[b].name@,
    ensures
        a == b,
{
    if a < b {
        assert(entry_before(level[a], level[b]));
        lemma_key_irreflexive(level[a].is_dir, level[a].name@);
    } else if b < a {
        assert(entry_before(level[b], level[a]));
        lemma_key_irreflexive(level[a].is_dir, level[a].name@);
    }
}

/// The subtrees that the new path does not reach stay trees of all paths.
pub proof fn lemma_others_framed(
    level: Seq<PasswordEntry>,
    anc: Seq<Seq<char>>,
    prefix: Seq<char>,
    all: Seq<Seq<Seq<char>>>,
    depth: nat,
    full: Seq<Seq<char>>,
    c: int,
)
    requires
        forest(level, anc, prefix, all, depth),
        full.len() > anc.len(),
        full.take(anc.len() as int) == anc,
        0 <= c < level.len(),
        level[c].is_dir,
        !(level[c].is_dir == (full.len() > anc.len() + 1) && level[c].name@ == full[anc.len() as int]),
    ensures
        forest(
            level[c].children@,
            anc.push(level[c].name@),
            level[c].path@,
            all.push(full),
            (depth - 1) as nat,
        ),
{
    let sub = anc.push(level[c].name@);
    if full.len() > sub.len() && full.take(sub.len() as int) == sub {
        assert(full.take(sub.len() as int)[anc.len() as int] == full[anc.len() as int]);
    }
    lemma_forest_frame(level[c].children@, sub, level[c].path@, all, (depth - 1) as nat, full);
}

/// Placing the node of the new path's segment at `i` (a new node, or the
/// old one with the rest of the path below it) gives the tree of all paths.
pub proof fn lemma_place(
    level: Seq<PasswordEntry>,
    out: Seq<PasswordEntry>,
    i: int,
    e: PasswordEntry,
    fresh: bool,
    anc: Seq<Seq<char>>,
    prefix: Seq<char>,
    all: Seq<Seq<Seq<char>>>,
    depth: nat,
    full: Seq<Seq<char>>,
)
    requires
        forest(level, anc, prefix, all, depth),
        full.len() > anc.len(),
        full.take(anc.len() as int) == anc,
        e.name@ == full[anc.len() as int],
        e.is_dir == (full.len() > anc.len() + 1),
        e.path@ == join_path(prefix, e.name@),
        !e.is_dir ==> e.children@.len() == 0,
        e.is_dir ==> depth > 0 && forest(
            e.children@,
            anc.push(e.name@),
            e.path@,
            all.push(full),
            (depth - 1) as nat,
        ),
        0 <= i <= level.len(),
        fresh ==> out == level.insert(i, e),
        !fresh ==> i < level.len() && out == level.update(i, e),
        !fresh ==> level[i].is_dir == e.is_dir && level[i].name@ == e.name@,
        forall|j: int| 0 <= j < i ==> key_before(#[trigger] level[j].is_dir, level[j].name@, e.is_dir, e.name@),
        fresh && i < level.len() ==> !key_before(level[i].is_dir, level[i].name@, e.is_dir, e.name@),
        fresh && i < level.len() ==> !(level[i].is_dir == e.is_dir && level[i].name@ == e.name@),
    ensures
        forest(out, anc, prefix, all.push(full), depth),
{
    let bigger = all.push(full);
    let d = e.is_dir;
    let n = e.name@;
    let k = anc.len() as int;
    assert(under(full, anc, n, d));
    assert(under(bigger[all.len() as int], anc, n, d));
    assert(wanted(bigger, anc, n, d));
    if fresh {
        lemma_scan_place(level, i, d, n);
    }
    // order
    assert forall|a: int, b: int| 0 <= a < b < out.len() implies #[trigger] entry_before(out[a], out[b]) by {
        if fresh {
            if a == i {
                assert(out[b] == level[b - 1]);
            } else if b == i {
                assert(out[a] == level[a]);
            } else {
                let oa = if a > i { a - 1 } else { a };
                let ob = if b > i { b - 1 } else { b };
                assert(out[a] == level[oa]);
                assert(out[b] == level[ob]);
                assert(entry_before(level[oa], level[ob]));
            }
        } else {
            assert(entry_before(level[a], level[b]));
        }
    }
    // every node lies on a path
    assert forall|a: int| 0 <= a < out.len() implies wanted(bigger, anc, #[trigger] out[a].name@, out[a].is_dir) by {
        if !(fresh && a == i) && !(!fresh && a == i) {
            let oa = if fresh && a > i { a - 1 } else { a };
            assert(out[a] == level[oa]);
            assert(wanted(all, anc, level[oa].name@, level[oa].is_dir));
            lemma_wanted_push(all, full, anc, level[oa].name@, level[oa].is_dir);
        }
    }
    // every node a path passes through is there
    assert forall|nn: Seq<char>, dd: bool| #[trigger] wanted(bigger, anc, nn, dd) implies exists|a: int|
        0 <= a < out.len() && (#[trigger] out[a]).name@ == nn && out[a].is_dir == dd by {
        lemma_wanted_push(all, full, anc, nn, dd);
        if under(full, anc, nn, dd) {
            assert(out[i].name@ == nn && out[i].is_dir == dd);
        } else {
            let c = choose|c: int| 0 <= c < level.len() && (#[trigger] level[c]).name@ == nn && level[c].is_dir == dd;
            if fresh {
                if c < i {
                    assert(out[c] == level[c]);
                } else {
                    assert(out[c + 1] == level[c]);
                }
            } else {
                if c == i {
                    assert(out[i].name@ == nn && out[i].is_dir == dd);
                } else {
                    assert(out[c] == level[c]);
                }
            }
        }
    }
    // shapes and subtrees
    assert forall|a: int| 0 <= a < out.len() implies {
        &&& (#[trigger] out[a]).path@ == join_path(prefix, out[a].name@)
        &&& !out[a].is_dir ==> out[a].children@.len() == 0
    } by {
        if a != i {
            let oa = if fresh && a > i { a - 1 } else { a };
            assert(out[a] == level[oa]);
        }
    }
    assert forall|a: int|
        0 <= a < out.len() && (#[trigger] out[a]).is_dir implies depth > 0 && forest(
            out[a].children@,
            anc.push(out[a].name@),
            out[a].path@,
            bigger,
            (depth - 1) as nat,
        ) by {
        if a != i {
            let oa = if fresh && a > i { a - 1 } else { a };
            assert(out[a] == level[oa]);
            if level[oa].is_dir == d && level[oa].name@ == n {
                if fresh {
                    assert(!((#[trigger] level[oa]).is_dir == d && level[oa].name@ == n));
                } else {
                    lemma_sorted_unique(level, oa, i);
                }
            }
            lemma_others_framed(level, anc, prefix, all, depth, full, oa);
        }
    }
}


/// The path of a node named `name` below the directory with path `prefix`.
fn join_chars(prefix: &Vec<char>, name: &Vec<char>) -> (p: Vec<char>)
    ensures
        p@ == join_path(prefix@, name@),
{
    if prefix.len() == 0 {
        name.clone()
    } else {
        let mut p = prefix.clone();
        p.push('/');
        let mut k: usize = 0;
        let ghost start = p@;
        while k < name.len()
            invariant
                k <= name.len(),
                start == prefix@.push('/'),
                p@ == start + name@.take(k as int),
            decreases name.len() - k,
        {
            p.push(name[k]);
            assert(name@.take(k + 1) =~= name@.take(k as int).push(name@[k as int]));
            k = k + 1;
        }
        assert(name@.take(name.len() as int) =~= name@);
        p
    }
}

/// Whether the node `e` comes before a node of kind `is_dir` named `name`.
fn comes_before(e: &PasswordEntry, is_dir: bool, name: &Vec<char>) -> (r: bool)
    ensures
        r == key_before(e.is_dir, e.name@, is_dir, name@),
{
    if e.is_dir && !is_dir {
        true
    } else if e.is_dir == is_dir {
        let en = chars_of(e.name.as_str());
        lex_less(&en, name)
    } else {
        false
    }
}

/// Puts the path `full` (its segments from `t` on) into the level below the
/// directory named by its first `t` segments, keeping every level sorted:
/// a new node goes straight to its sorted place (directories first, then by
/// name), so the tree needs no sorting pass afterwards.
fn insert_sorted(
    level: &mut Vec<PasswordEntry>,
    full: &Vec<Vec<char>>,
    t: usize,
    prefix: &Vec<char>,
    Ghost(all): Ghost<Seq<Seq<Seq<char>>>>,
    Ghost(depth): Ghost<nat>,
)
    requires
        t < full.len(),
        full.len() - t <= depth,
        forest(old(level)@, seqs(full@).take(t as int), prefix@, all, depth),
    ensures
        forest(final(level)@, seqs(full@).take(t as int), prefix@, all.push(seqs(full@)), depth),
    decreases full.len() - t,
{
    let ghost fv = seqs(full@);
    let ghost anc = fv.take(t as int);
    let ghost old_level = level@;
    assert(fv.take(t + 1) =~= anc.push(full@[t as int]@));
    let name = &full[t];
    let is_dir = t + 1 < full.len();
    let mut i: usize = 0;
    while i < level.len() && comes_before(&level[i], is_dir, name)
        invariant
            level@ == old_level,
            i <= level.len(),
            forall|j: int| 0 <= j < i ==> key_before(#[trigger] level@[j].is_dir, level@[j].name@, is_dir, name@),
        decreases level.len() - i,
    {
        i = i + 1;
    }
    let found = i < level.len() && level[i].is_dir == is_dir && same_chars(&chars_of(level[i].name.as_str()), name);
    if found {
        if is_dir {
            let mut e = level.remove(i);
            assert(e == old_level[i as int]);
            let sub_prefix = chars_of(e.path.as_str());
            insert_sorted(&mut e.children, full, t + 1, &sub_prefix, Ghost(all), Ghost((depth - 1) as nat));
            level.insert(i, e);
            proof {
                assert(level@ =~= old_level.update(i as int, e));
                lemma_place(old_level, level@, i as int, e, false, anc, prefix@, all, depth, fv);
            }
        } else {
            proof {
                let e = old_level[i as int];
                assert(old_level.update(i as int, e) =~= old_level);
                lemma_place(old_level, level@, i as int, e, false, anc, prefix@, all, depth, fv);
            }
        }
    } else {
        let path = join_chars(prefix, name);
        let mut e = PasswordEntry {
            path: string_of(&path),
            name: string_of(name),
            is_dir,
            children: Vec::new(),
        };
        if is_dir {
            proof {
                lemma_scan_place(old_level, i as int, is_dir, name@);
                assert forall|nn: Seq<char>, dd: bool| !#[trigger] wanted(all, anc.push(name@), nn, dd) by {
                    if wanted(all, anc.push(name@), nn, dd) {
                        let j = choose|j: int| 0 <= j < all.len() && #[trigger] under(all[j], anc.push(name@), nn, dd);
                        assert(all[j].take(t as int) =~= all[j].take(t + 1).take(t as int));
                        assert(anc.push(name@).take(t as int) =~= anc);
                        assert(all[j].take(t + 1)[t as int] == all[j][t as int]);
                        assert(under(all[j], anc, name@, true));
                        assert(wanted(all, anc, name@, true));
                    }
                }
                lemma_forest_empty(anc.push(name@), path@, all, (depth - 1) as nat);
                assert(e.children@ =~= Seq::<PasswordEntry>::empty());
            }
            insert_sorted(&mut e.children, full, t + 1, &path, Ghost(all), Ghost((depth - 1) as nat));
        }
        level.insert(i, e);
        proof {
            lemma_place(old_level, level@, i as int, e, true, anc, prefix@, all, depth, fv);
        }
    }
}

/// The most segments any of the paths has.
pub open spec fn max_segments(all: Seq<Seq<Seq<char>>>) -> nat
    decreases all.len(),
{
    if all.len() == 0 {
        0
    } else {
        let rest = max_segments(all.drop_last());
        if all.last().len() > rest {
            all.last().len()
        } else {
            rest
        }
    }
}

pub proof fn lemma_max_segments(all: Seq<Seq<Seq<char>>>, j: int)
    requires
        0 <= j < all.len(),
    ensures
        all[j].len() <= max_segments(all),
    decreases all.len(),
{
    if j < all.len() - 1 {
        lemma_max_segments(all.drop_last(), j);
    }
}

/// The segments of each path, split at `/`.
pub open spec fn path_segments(paths: Seq<String>) -> Seq<Seq<Seq<char>>> {
    Seq::new(paths.len(), |i: int| split_on(paths[i]@, '/'))
}

/// `tree` is the password tree of `paths`: a directory for every leading
/// segment sequence of a path, an entry for every path, each node with its
/// full path, and in every level directories first, then names in order.
pub open spec fn is_password_tree(paths: Seq<String>, tree: Seq<PasswordEntry>) -> bool {
    forest(
        tree,
        Seq::empty(),
        Seq::empty(),
        path_segments(paths),
        max_segments(path_segments(paths)),
    )
}

/// The password tree of the store's entry paths.
pub fn tree_from_paths(paths: &Vec<String>) -> (roots: Vec<PasswordEntry>)
    ensures
        is_password_tree(paths@, roots@),
{
    let ghost all = path_segments(paths@);
    let mut segss: Vec<Vec<Vec<char>>> = Vec::new();
    let mut depth: usize = 0;
    for k in 0..paths.len()
        invariant
            all == path_segments(paths@),
            segss.len() == k,
            forall|j: int| 0 <= j < k ==> seqs((#[trigger] segss@[j])@) == all[j],
            depth == max_segments(all.take(k as int)),
    {
        let full = chars_of(paths[k].as_str());
        let segs = split_chars(&full, '/');
        proof {
            assert(all.take(k + 1).drop_last() =~= all.take(k as int));
        }
        if segs.len() > depth {
            depth = segs.len();
        }
        segss.push(segs);
    }
    assert(all.take(paths.len() as int) =~= all);
    let mut roots: Vec<PasswordEntry> = Vec::new();
    let empty: Vec<char> = Vec::new();
    proof {
        assert forall|nn: Seq<char>, dd: bool| !#[trigger] wanted(all.take(0), Seq::<Seq<char>>::empty(), nn, dd) by {
        }
        lemma_forest_empty(Seq::empty(), Seq::empty(), all.take(0), depth as nat);
    }
    for k in 0..segss.len()
        invariant
            all == path_segments(paths@),
            segss.len() == all.len(),
            forall|j: int| 0 <= j < all.len() ==> seqs((#[trigger] segss@[j])@) == all[j],
            depth == max_segments(all),
            empty@ == Seq::<char>::empty(),
            forest(roots@, Seq::empty(), Seq::empty(), all.take(k as int), depth as nat),
    {
        proof {
            lemma_max_segments(all, k as int);
            lemma_split_on_nonempty_all(all, k as int, paths@);
            assert(seqs(segss@[k as int]@).take(0) =~= Seq::<Seq<char>>::empty());
            assert(all.take(k + 1) =~= all.take(k as int).push(all[k as int]));
        }
        insert_sorted(&mut roots, &segss[k], 0, &empty, Ghost(all.take(k as int)), Ghost(depth as nat));
    }
    assert(all.take(segss.len() as int) =~= all);
    roots
}

proof fn lemma_split_on_nonempty_all(all: Seq<Seq<Seq<char>>>, k: int, paths: Seq<String>)
    requires
        all == path_segments(paths),
        0 <= k < all.len(),
    ensures
        all[k].len() >= 1,
{
    crate::text::lemma_split_on_nonempty(paths[k]@, '/');
}

/// Two trees agree in every node's name, kind and path, down to `depth`
/// levels (entries having no children in either).
pub open spec fn same_tree(a: Seq<PasswordEntry>, b: Seq<PasswordEntry>, depth: nat) -> bool
    decreases depth,
{
    &&& a.len() == b.len()
    &&& forall|i: int|
        0 <= i < a.len() ==> {
            &&& (#[trigger] a[i]).name@ == b[i].name@
            &&& a[i].is_dir == b[i].is_dir
            &&& a[i].path@ == b[i].path@
            &&& !a[i].is_dir ==> a[i].children@.len() == 0 && b[i].children@.len() == 0
            &&& a[i].is_dir ==> depth > 0 && same_tree(a[i].children@, b[i].children@, (depth - 1) as nat)
        }
}

/// Both collections of paths pass through the same nodes.
pub open spec fn same_nodes(all1: Seq<Seq<Seq<char>>>, all2: Seq<Seq<Seq<char>>>) -> bool {
    forall|anc: Seq<Seq<char>>, n: Seq<char>, d: bool| #[trigger] wanted(all1, anc, n, d) == wanted(all2, anc, n, d)
}

/// The level has a node named `n` of kind `d`.
pub open spec fn has_node(level: Seq<PasswordEntry>, n: Seq<char>, d: bool) -> bool {
    exists|j: int| 0 <= j < level.len() && (#[trigger] level[j]).name@ == n && level[j].is_dir == d
}

/// Two sorted levels with the same nodes (by kind and name) list them in
/// the same order.
proof fn lemma_sorted_same_keys(a: Seq<PasswordEntry>, b: Seq<PasswordEntry>)
    requires
        level_sorted(a),
        level_sorted(b),
        forall|i: int| 0 <= i < a.len() ==> has_node(b, (#[trigger] a[i]).name@, a[i].is_dir),
        forall|j: int| 0 <= j < b.len() ==> has_node(a, (#[trigger] b[j]).name@, b[j].is_dir),
    ensures
        a.len() == b.len(),
        forall|i: int| 0 <= i < a.len() ==> (#[trigger] a[i]).name@ == b[i].name@ && a[i].is_dir == b[i].is_dir,
    decreases a.len() + b.len(),
{
    if a.len() == 0 && b.len() > 0 {
        assert(has_node(a, b[0].name@, b[0].is_dir));
    } else if a.len() > 0 && b.len() == 0 {
        assert(has_node(b, a[0].name@, a[0].is_dir));
    } else if a.len() > 0 {
        assert(has_node(b, a[0].name@, a[0].is_dir));
        let j0 = choose|j: int| 0 <= j < b.len() && (#[trigger] b[j]).name@ == a[0].name@ && b[j].is_dir == a[0].is_dir;
        assert(has_node(a, b[0].name@, b[0].is_dir));
        let i0 = choose|i: int| 0 <= i < a.len() && (#[trigger] a[i]).name@ == b[0].name@ && a[i].is_dir == b[0].is_dir;
        if j0 > 0 {
            assert(entry_before(b[0], b[j0]));
            if i0 == 0 {
                lemma_key_irreflexive(a[0].is_dir, a[0].name@);
            } else {
                assert(entry_before(a[0], a[i0]));
                lemma_key_asymmetric(a[0].is_dir, a[0].name@, a[i0].is_dir, a[i0].name@);
            }
            assert(false);
        }
        let a1 = a.drop_first();
        let b1 = b.drop_first();
        assert forall|i: int| 0 <= i < a1.len() implies has_node(b1, (#[trigger] a1[i]).name@, a1[i].is_dir) by {
            assert(a1[i] == a[i + 1]);
            assert(has_node(b, a[i + 1].name@, a[i + 1].is_dir));
            let j = choose|j: int| 0 <= j < b.len() && (#[trigger] b[j]).name@ == a[i + 1].name@ && b[j].is_dir == a[i + 1].is_dir;
            assert(entry_before(a[0], a[i + 1]));
            if j == 0 {
                lemma_key_irreflexive(a[0].is_dir, a[0].name@);
            }
            assert(b1[j - 1] == b[j]);
        }
        assert forall|j: int| 0 <= j < b1.len() implies has_node(a1, (#[trigger] b1[j]).name@, b1[j].is_dir) by {
            assert(b1[j] == b[j + 1]);
            assert(has_node(a, b[j + 1].name@, b[j + 1].is_dir));
            let i = choose|i: int| 0 <= i < a.len() && (#[trigger] a[i]).name@ == b[j + 1].name@ && a[i].is_dir == b[j + 1].is_dir;
            assert(entry_before(b[0], b[j + 1]));
            if i == 0 {
                lemma_key_irreflexive(b[0].is_dir, b[0].name@);
            }
            assert(a1[i - 1] == a[i]);
        }
        lemma_sorted_same_keys(a1, b1);
        assert forall|i: int| 0 <= i < a.len() implies (#[trigger] a[i]).name@ == b[i].name@ && a[i].is_dir == b[i].is_dir by {
            if i > 0 {
                assert(a[i] == a1[i - 1]);
                assert(b[i] == b1[i - 1]);
            }
        }
    }
}

/// The nodes of a level of one tree are nodes of the level of the other,
/// when both are trees of paths that pass through the same nodes.
proof fn lemma_level_nodes(
    a: Seq<PasswordEntry>,
    b: Seq<PasswordEntry>,
    anc: Seq<Seq<char>>,
    all1: Seq<Seq<Seq<char>>>,
    all2: Seq<Seq<Seq<char>>>,
)
    requires
        level_sound(a, anc, all1),
        level_complete(b, anc, all2),
        same_nodes(all1, all2),
    ensures
        forall|i: int| 0 <= i < a.len() ==> has_node(b, (#[trigger] a[i]).name@, a[i].is_dir),
{
    assert forall|i: int| 0 <= i < a.len() implies has_node(b, (#[trigger] a[i]).name@, a[i].is_dir) by {
        assert(wanted(all1, anc, a[i].name@, a[i].is_dir));
        assert(wanted(all2, anc, a[i].name@, a[i].is_dir));
    }
}

/// Two trees of paths that pass through the same nodes agree node for node.
#[verifier::rlimit(40)]
pub proof fn lemma_forest_unique(
    a: Seq<PasswordEntry>,
    b: Seq<PasswordEntry>,
    anc: Seq<Seq<char>>,
    prefix: Seq<char>,
    all1: Seq<Seq<Seq<char>>>,
    all2: Seq<Seq<Seq<char>>>,
    d1: nat,
    d2: nat,
)
    requires
        forest(a, anc, prefix, all1, d1),
        forest(b, anc, prefix, all2, d2),
        same_nodes(all1, all2),
    ensures
        same_tree(a, b, d1),
    decreases d1,
{
    lemma_level_nodes(a, b, anc, all1, all2);
    assert(same_nodes(all2, all1));
    lemma_level_nodes(b, a, anc, all2, all1);
    lemma_sorted_same_keys(a, b);
    assert forall|i: int| 0 <= i < a.len() implies {
        &&& (#[trigger] a[i]).name@ == b[i].name@
        &&& a[i].is_dir == b[i].is_dir
        &&& a[i].path@ == b[i].path@
        &&& !a[i].is_dir ==> a[i].children@.len() == 0 && b[i].children@.len() == 0
        &&& a[i].is_dir ==> d1 > 0 && same_tree(a[i].children@, b[i].children@, (d1 - 1) as nat)
    } by {
        assert(a[i].name@ == b[i].name@);
        if a[i].is_dir {
            lemma_forest_unique(
                a[i].children@,
                b[i].children@,
                anc.push(a[i].name@),
                a[i].path@,
                all1,
                all2,
                (d1 - 1) as nat,
                (d2 - 1) as nat,
            );
        }
    }
}

/// Paths with the same segment sequences, in any order and repetition,
/// pass through the same nodes.
proof fn lemma_same_nodes(all1: Seq<Seq<Seq<char>>>, all2: Seq<Seq<Seq<char>>>)
    requires
        forall|i: int| 0 <= i < all1.len() ==> all2.contains(#[trigger] all1[i]),
        forall|j: int| 0 <= j < all2.len() ==> all1.contains(#[trigger] all2[j]),
    ensures
        same_nodes(all1, all2),
{
    assert forall|anc: Seq<Seq<char>>, n: Seq<char>, d: bool| #[trigger] wanted(all1, anc, n, d) == wanted(all2, anc, n, d) by {
        if wanted(all1, anc, n, d) {
            let i = choose|i: int| 0 <= i < all1.len() && #[trigger] under(all1[i], anc, n, d);
            assert(all2.contains(all1[i]));
            let j = choose|j: int| 0 <= j < all2.len() && all2[j] == all1[i];
            assert(under(all2[j], anc, n, d));
        }
        if wanted(all2, anc, n, d) {
            let j = choose|j: int| 0 <= j < all2.len() && #[trigger] under(all2[j], anc, n, d);
            assert(all1.contains(all2[j]));
            let i = choose|i: int| 0 <= i < all1.len() && all1[i] == all2[j];
            assert(under(all1[i], anc, n, d));
        }
    }
}

/// Equal sets of paths give the same password tree, whatever their order
/// and repetition.
pub proof fn lemma_tree_depends_on_path_set(p: Seq<String>, q: Seq<String>, t1: Seq<PasswordEntry>, t2: Seq<PasswordEntry>)
    requires
        forall|i: int| 0 <= i < p.len() ==> exists|j: int| 0 <= j < q.len() && q[j]@ == (#[trigger] p[i])@,
        forall|j: int| 0 <= j < q.len() ==> exists|i: int| 0 <= i < p.len() && p[i]@ == (#[trigger] q[j])@,
        is_password_tree(p, t1),
        is_password_tree(q, t2),
    ensures
        same_tree(t1, t2, max_segments(path_segments(p))),
{
    let all1 = path_segments(p);
    let all2 = path_segments(q);
    assert forall|i: int| 0 <= i < all1.len() implies all2.contains(#[trigger] all1[i]) by {
        assert(p[i]@ == p[i]@);
        let j = choose|j: int| 0 <= j < q.len() && q[j]@ == p[i]@;
        assert(all2[j] == all1[i]);
    }
    assert forall|j: int| 0 <= j < all2.len() implies all1.contains(#[trigger] all2[j]) by {
        assert(q[j]@ == q[j]@);
        let i = choose|i: int| 0 <= i < p.len() && p[i]@ == q[j]@;
        assert(all1[i] == all2[j]);
    }
    lemma_same_nodes(all1, all2);
    lemma_forest_unique(t1, t2, Seq::empty(), Seq::empty(), all1, all2, max_segments(all1), max_segments(all2));
}

/// Putting a path into a tree that already holds it changes nothing: the
/// tree of the paths with the path added twice is the tree with it added
/// once.
pub proof fn lemma_insert_twice(
    l1: Seq<PasswordEntry>,
    l2: Seq<PasswordEntry>,
    anc: Seq<Seq<char>>,
    prefix: Seq<char>,
    all: Seq<Seq<Seq<char>>>,
    path: Seq<Seq<char>>,
    depth: nat,
)
    requires
        forest(l1, anc, prefix, all.push(path), depth),
        forest(l2, anc, prefix, all.push(path).push(path), depth),
    ensures
        same_tree(l1, l2, depth),
{
    let once = all.push(path);
    let twice = once.push(path);
    assert forall|i: int| 0 <= i < once.len() implies twice.contains(#[trigger] once[i]) by {
        assert(twice[i] == once[i]);
    }
    assert forall|j: int| 0 <= j < twice.len() implies once.contains(#[trigger] twice[j]) by {
        if j < once.len() {
            assert(once[j] == twice[j]);
        } else {
            assert(once[once.len() - 1] == twice[j]);
        }
    }
    lemma_same_nodes(once, twice);
    lemma_forest_unique(l1, l2, anc, prefix, once, twice, depth, depth);
}

} // verus!
