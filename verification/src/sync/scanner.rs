//! Building the index of a scanned source tree.

use vstd::prelude::*;

use crate::sync::path_map::{distinct_keys, insert_pair, lemma_insert_pair, lookup, PathMap};
use crate::text::{chars_of, push_char};

verus! {

/// Size and modification time of one scanned file.
#[derive(Clone, Copy, Debug, PartialEq, Eq)]
pub struct FileEntry {
    pub size: u64,
    pub mtime_secs: i64,
}

/// Scanned files by relative path (with `/` separators).
pub type ScanMap = PathMap<FileEntry>;

/// One regular file met while walking the source tree: its path relative to the
/// source root as the platform spells it, its size and its modification time.
pub struct WalkedFile {
    pub relative: String,
    pub size: u64,
    pub mtime_secs: i64,
}

/// `s` with every backslash turned into a forward slash.
pub open spec fn slash_path(s: Seq<char>) -> Seq<char> {
    s.map_values(|c: char| if c == '\\' { '/' } else { c })
}

/// Turns a platform relative path into the `/`-separated form the index uses.
pub fn to_slash_path(s: &str) -> (r: String)
    ensures
        r@ == slash_path(s@),
{
    let cs = chars_of(s);
    let mut r = String::new();
    for i in 0..cs.len()
        invariant
            cs@ == s@,
            r@ == slash_path(s@.take(i as int)),
    {
        let c = cs[i];
        if c == '\\' {
            push_char(&mut r, '/');
        } else {
            push_char(&mut r, c);
        }
        assert(slash_path(s@.take(i + 1)) =~= slash_path(s@.take(i as int)).push(
            if c == '\\' { '/' } else { c },
        ));
    }
    assert(s@.take(cs@.len() as int) =~= s@);
    r
}

/// `s` without its trailing slashes.
pub open spec fn trim_end_slashes(s: Seq<char>) -> Seq<char>
    decreases s.len(),
{
    if s.len() > 0 && s.last() == '/' {
        trim_end_slashes(s.drop_last())
    } else {
        s
    }
}

/// The `/`-separated components of a path, empty ones included: `a/b` has
/// components `a` and `b`, the empty path one empty component.
pub open spec fn components(s: Seq<char>) -> Seq<Seq<char>>
    decreases s.len(),
{
    if s.len() == 0 {
        seq![Seq::empty()]
    } else {
        let prev = components(s.drop_last());
        if s.last() == '/' {
            prev.push(Seq::empty())
        } else {
            prev.update(prev.len() - 1, prev.last().push(s.last()))
        }
    }
}

/// A glob matches one path component: `*` stands for any run of characters,
/// `?` for any one character, every other character for itself.
pub open spec fn glob_name(p: Seq<char>, n: Seq<char>) -> bool
    decreases p.len() + n.len(),
{
    if p.len() == 0 {
        n.len() == 0
    } else if p[0] == '*' {
        glob_name(p.drop_first(), n) || (n.len() > 0 && glob_name(p, n.drop_first()))
    } else if n.len() == 0 {
        false
    } else {
        (p[0] == '?' || p[0] == n[0]) && glob_name(p.drop_first(), n.drop_first())
    }
}

/// The component `**`.
pub open spec fn double_star() -> Seq<char> {
    seq!['*', '*']
}

/// A glob split into components matches a run of path components: a `**`
/// component stands for any number of components (none too), every other
/// component matches one path component.
pub open spec fn glob_path(ps: Seq<Seq<char>>, cs: Seq<Seq<char>>) -> bool
    decreases ps.len() + cs.len(),
{
    if ps.len() == 0 {
        cs.len() == 0
    } else if ps[0] == double_star() {
        glob_path(ps.drop_first(), cs) || (cs.len() > 0 && glob_path(ps, cs.drop_first()))
    } else if cs.len() == 0 {
        false
    } else {
        glob_name(ps[0], cs[0]) && glob_path(ps.drop_first(), cs.drop_first())
    }
}

/// The pattern matches the components `a..b` of the path.
pub open spec fn run_matches(pc: Seq<Seq<char>>, cs: Seq<Seq<char>>, a: int, b: int) -> bool {
    0 <= a <= b <= cs.len() && glob_path(pc, cs.subrange(a, b))
}

/// An exclusion glob, its trailing slashes removed, matches a relative path when
/// it matches some run of consecutive components of the path: `*.tmp` excludes
/// a file of that name in any directory, `node_modules` or `node_modules/**`
/// everything under a directory of that name.
pub open spec fn matches_exclude(path: Seq<char>, pattern: Seq<char>) -> bool {
    let pc = components(trim_end_slashes(pattern));
    let cs = components(path);
    exists|a: int, b: int| #[trigger] run_matches(pc, cs, a, b)
}

/// Some pattern matches the path.
pub open spec fn excluded(path: Seq<char>, patterns: Seq<Seq<char>>) -> bool {
    exists|i: int| 0 <= i < patterns.len() && #[trigger] matches_exclude(path, patterns[i])
}

pub open spec fn pattern_views(excludes: Seq<String>) -> Seq<Seq<char>> {
    excludes.map_values(|s: String| s@)
}

pub open spec fn char_views(v: Seq<Vec<char>>) -> Seq<Seq<char>> {
    v.map_values(|c: Vec<char>| c@)
}

/// Length of `s` once its trailing slashes are removed.
fn trimmed_len(s: &Vec<char>) -> (k: usize)
    ensures
        k <= s@.len(),
        trim_end_slashes(s@) == s@.take(k as int),
{
    let mut k = s.len();
    assert(s@.take(k as int) =~= s@);
    while k > 0 && s[k - 1] == '/'
        invariant
            k <= s@.len(),
            trim_end_slashes(s@) == trim_end_slashes(s@.take(k as int)),
        decreases k,
    {
        assert(s@.take(k as int).drop_last() =~= s@.take(k - 1));
        k = k - 1;
    }
    k
}

/// Splits the first `len` characters of `s` into their components.
fn split_components(s: &Vec<char>, len: usize) -> (r: Vec<Vec<char>>)
    requires
        len <= s@.len(),
    ensures
        char_views(r@) == components(s@.take(len as int)),
{
    let mut done: Vec<Vec<char>> = Vec::new();
    let mut cur: Vec<char> = Vec::new();
    assert(s@.take(0) =~= Seq::<char>::empty());
    assert(char_views(done@).push(cur@) =~= components(s@.take(0)));
    for i in 0..len
        invariant
            len <= s@.len(),
            char_views(done@).push(cur@) == components(s@.take(i as int)),
    {
        let c = s[i];
        let ghost prev = components(s@.take(i as int));
        assert(s@.take(i + 1).drop_last() =~= s@.take(i as int));
        if c == '/' {
            let mut piece: Vec<char> = Vec::new();
            std::mem::swap(&mut piece, &mut cur);
            done.push(piece);
            assert(char_views(done@).push(cur@) =~= prev.push(Seq::empty()));
        } else {
            cur.push(c);
            assert(char_views(done@).push(cur@) =~= prev.update(prev.len() - 1, prev.last().push(c)));
        }
    }
    done.push(cur);
    assert(char_views(done@) =~= components(s@.take(len as int)));
    done
}

/// Whether the glob `p[i..]` matches the component `n[j..]`.
fn name_matches(p: &Vec<char>, i: usize, n: &Vec<char>, j: usize) -> (b: bool)
    requires
        i <= p@.len(),
        j <= n@.len(),
    ensures
        b == glob_name(p@.skip(i as int), n@.skip(j as int)),
    decreases p@.len() - i + n@.len() - j,
{
    let ghost ps = p@.skip(i as int);
    let ghost ns = n@.skip(j as int);
    if i == p.len() {
        return j == n.len();
    }
    assert(ps.drop_first() =~= p@.skip(i + 1));
    if j < n.len() {
        assert(ns.drop_first() =~= n@.skip(j + 1));
    }
    if p[i] == '*' {
        if name_matches(p, i + 1, n, j) {
            return true;
        }
        j < n.len() && name_matches(p, i, n, j + 1)
    } else if j == n.len() {
        false
    } else {
        (p[i] == '?' || p[i] == n[j]) && name_matches(p, i + 1, n, j + 1)
    }
}

/// Whether a component is `**`.
fn is_double_star(c: &Vec<char>) -> (b: bool)
    ensures
        b == (c@ == double_star()),
{
    let r = c.len() == 2 && c[0] == '*' && c[1] == '*';
    if r {
        assert(c@ =~= double_star());
    }
    r
}

/// Whether the glob components `ps[i..]` match the path components `cs[lo..hi]`.
fn components_match(ps: &Vec<Vec<char>>, i: usize, cs: &Vec<Vec<char>>, lo: usize, hi: usize) -> (b: bool)
    requires
        i <= ps@.len(),
        lo <= hi <= cs@.len(),
    ensures
        b == glob_path(char_views(ps@).skip(i as int), char_views(cs@).subrange(lo as int, hi as int)),
    decreases ps@.len() - i + hi - lo,
{
    let ghost pv = char_views(ps@).skip(i as int);
    let ghost cv = char_views(cs@).subrange(lo as int, hi as int);
    if i == ps.len() {
        return lo == hi;
    }
    assert(pv.drop_first() =~= char_views(ps@).skip(i + 1));
    assert(pv[0] == ps@[i as int]@);
    if lo < hi {
        assert(cv.drop_first() =~= char_views(cs@).subrange(lo + 1, hi as int));
        assert(cv[0] == cs@[lo as int]@);
    }
    if is_double_star(&ps[i]) {
        if components_match(ps, i + 1, cs, lo, hi) {
            return true;
        }
        lo < hi && components_match(ps, i, cs, lo + 1, hi)
    } else if lo == hi {
        false
    } else {
        let first = name_matches(&ps[i], 0, &cs[lo], 0);
        assert(ps@[i as int]@.skip(0) =~= ps@[i as int]@);
        assert(cs@[lo as int]@.skip(0) =~= cs@[lo as int]@);
        first && components_match(ps, i + 1, cs, lo + 1, hi)
    }
}

/// Whether the exclusion pattern matches the relative path.
fn pattern_matches(path: &Vec<char>, pattern: &String) -> (b: bool)
    ensures
        b == matches_exclude(path@, pattern@),
{
    let p = chars_of(pattern.as_str());
    let k = trimmed_len(&p);
    let pcs = split_components(&p, k);
    let ccs = split_components(path, path.len());
    assert(path@.take(path@.len() as int) =~= path@);
    assert(p@ == pattern@);
    let ghost pc = components(trim_end_slashes(pattern@));
    let ghost cs = components(path@);
    assert(char_views(pcs@).skip(0) =~= pc);
    let n = ccs.len();
    assert(n == cs.len());
    let mut a: usize = 0;
    loop
        invariant
            n == ccs@.len(),
            pc == components(trim_end_slashes(pattern@)),
            cs == components(path@),
            char_views(pcs@).skip(0) == pc,
            char_views(ccs@) == cs,
            a <= n,
            forall|a2: int, b2: int| 0 <= a2 < a ==> !#[trigger] run_matches(pc, cs, a2, b2),
        ensures
            forall|a2: int, b2: int| !#[trigger] run_matches(pc, cs, a2, b2),
        decreases n - a,
    {
        let mut b: usize = a;
        loop
            invariant
                n == ccs@.len(),
                pc == components(trim_end_slashes(pattern@)),
                cs == components(path@),
                char_views(pcs@).skip(0) == pc,
                char_views(ccs@) == cs,
                a <= b <= n,
                forall|a2: int, b2: int| 0 <= a2 < a ==> !#[trigger] run_matches(pc, cs, a2, b2),
                forall|b2: int| b2 < b ==> !#[trigger] run_matches(pc, cs, a as int, b2),
            ensures
                forall|b2: int| !#[trigger] run_matches(pc, cs, a as int, b2),
            decreases n - b,
        {
            if components_match(&pcs, 0, &ccs, a, b) {
                assert(run_matches(pc, cs, a as int, b as int));
                assert(matches_exclude(path@, pattern@));
                return true;
            }
            if b == n {
                break;
            }
            b = b + 1;
        }
        if a == n {
            break;
        }
        a = a + 1;
    }
    proof {
        if matches_exclude(path@, pattern@) {
            let (a2, b2) = choose|a2: int, b2: int| #[trigger] run_matches(pc, cs, a2, b2);
            assert(run_matches(pc, cs, a2, b2));
        }
    }
    false
}

/// Whether the relative path is excluded by one of the patterns.
pub fn is_excluded(relative_path: &str, excludes: &[String]) -> (b: bool)
    ensures
        b == excluded(relative_path@, pattern_views(excludes@)),
{
    let path = chars_of(relative_path);
    for i in 0..excludes.len()
        invariant
            path@ == relative_path@,
            forall|j: int| 0 <= j < i ==> !matches_exclude(relative_path@, #[trigger] pattern_views(excludes@)[j]),
    {
        if pattern_matches(&path, &excludes[i]) {
            assert(pattern_views(excludes@)[i as int] == excludes@[i as int]@);
            return true;
        }
        assert(pattern_views(excludes@)[i as int] == excludes@[i as int]@);
    }
    false
}

/// Exclusion patterns act independently: a path is excluded by two lists of
/// patterns joined together exactly when one of the lists excludes it, and the
/// empty list excludes nothing.
pub proof fn law_exclusion_by_joined_lists(path: Seq<char>, a: Seq<Seq<char>>, b: Seq<Seq<char>>)
    ensures
        excluded(path, a + b) == (excluded(path, a) || excluded(path, b)),
        !excluded(path, Seq::<Seq<char>>::empty()),
{
    let ab = a + b;
    if excluded(path, ab) {
        let i = choose|i: int| 0 <= i < ab.len() && #[trigger] matches_exclude(path, ab[i]);
        if i < a.len() {
            assert(ab[i] == a[i]);
        } else {
            assert(ab[i] == b[i - a.len()]);
            assert(matches_exclude(path, b[i - a.len()]));
        }
    }
    if excluded(path, a) {
        let i = choose|i: int| 0 <= i < a.len() && #[trigger] matches_exclude(path, a[i]);
        assert(ab[i] == a[i]);
    }
    if excluded(path, b) {
        let i = choose|i: int| 0 <= i < b.len() && #[trigger] matches_exclude(path, b[i]);
        assert(ab[i + a.len()] == b[i]);
    }
}

/// A trailing `/` on an exclusion pattern changes nothing.
pub proof fn law_exclusion_ignores_trailing_slash(path: Seq<char>, pattern: Seq<char>)
    ensures
        matches_exclude(path, pattern.push('/')) == matches_exclude(path, pattern),
{
    assert(pattern.push('/').drop_last() =~= pattern);
    assert(trim_end_slashes(pattern.push('/')) == trim_end_slashes(pattern));
}

/// A file of `size` bytes is over the limit of `max_size_mb` MiB.
pub open spec fn too_large(size: u64, max_size_mb: Option<u64>) -> bool {
    match max_size_mb {
        Some(mb) => size > mb * 1048576,
        None => false,
    }
}

/// Whether a file of `size` bytes is over the limit of `max_size_mb` MiB.
pub fn over_size_limit(size: u64, max_size_mb: Option<u64>) -> (b: bool)
    ensures
        b == too_large(size, max_size_mb),
{
    match max_size_mb {
        None => false,
        Some(mb) => match mb.checked_mul(1048576) {
            Some(limit) => size > limit,
            None => false,
        },
    }
}

/// The scanned pairs of walked files (paths already in `/` form): files that an
/// exclusion pattern matches or that are over the size limit are skipped, the
/// others are stored by path in walk order.
pub open spec fn scanned_pairs(
    files: Seq<(Seq<char>, FileEntry)>,
    patterns: Seq<Seq<char>>,
    max_size_mb: Option<u64>,
) -> Seq<(Seq<char>, FileEntry)>
    decreases files.len(),
{
    if files.len() == 0 {
        Seq::empty()
    } else {
        let prev = scanned_pairs(files.drop_last(), patterns, max_size_mb);
        let f = files.last();
        if excluded(f.0, patterns) || too_large(f.1.size, max_size_mb) {
            prev
        } else {
            insert_pair(prev, f.0, f.1)
        }
    }
}

/// More exclusion patterns never add a file to the scan: with patterns `b` added
/// to `a`, a path keeps the entry it had unless a pattern of `b` excludes it, and
/// then it is left out.
pub proof fn law_more_patterns_only_remove(
    files: Seq<(Seq<char>, FileEntry)>,
    a: Seq<Seq<char>>,
    b: Seq<Seq<char>>,
    max_size_mb: Option<u64>,
)
    ensures
        distinct_keys(scanned_pairs(files, a, max_size_mb)),
        distinct_keys(scanned_pairs(files, a + b, max_size_mb)),
        forall|k: Seq<char>| #[trigger] lookup(scanned_pairs(files, a + b, max_size_mb), k) == if excluded(k, b) {
            None
        } else {
            lookup(scanned_pairs(files, a, max_size_mb), k)
        },
    decreases files.len(),
{
    if files.len() > 0 {
        let rest = files.drop_last();
        law_more_patterns_only_remove(rest, a, b, max_size_mb);
        let f = files.last();
        let prev_a = scanned_pairs(rest, a, max_size_mb);
        let prev_ab = scanned_pairs(rest, a + b, max_size_mb);
        law_exclusion_by_joined_lists(f.0, a, b);
        lemma_insert_pair(prev_a, f.0, f.1);
        lemma_insert_pair(prev_ab, f.0, f.1);
        let res_a = scanned_pairs(files, a, max_size_mb);
        let res_ab = scanned_pairs(files, a + b, max_size_mb);
        assert forall|k: Seq<char>| #[trigger] lookup(res_ab, k) == if excluded(k, b) {
            None
        } else {
            lookup(res_a, k)
        } by {
            assert(lookup(prev_ab, k) == if excluded(k, b) { None } else { lookup(prev_a, k) });
        }
    }
}

pub open spec fn walked_views(files: Seq<WalkedFile>) -> Seq<(Seq<char>, FileEntry)> {
    files.map_values(|w: WalkedFile| (slash_path(w.relative@), FileEntry { size: w.size, mtime_secs: w.mtime_secs }))
}

/// Builds the scan index from the regular files of a walk of the source tree:
/// each path is put in `/` form; files matched by an exclusion pattern, and files
/// larger than `max_size_mb` MiB, are left out.
pub fn scan_directory(files: Vec<WalkedFile>, exclude_globs: &[String], max_size_mb: Option<u64>) -> (map: ScanMap)
    ensures
        map.pairs() == scanned_pairs(walked_views(files@), pattern_views(exclude_globs@), max_size_mb),
{
    let mut map = ScanMap::new();
    let ghost views = walked_views(files@);
    let ghost pats = pattern_views(exclude_globs@);
    for i in 0..files.len()
        invariant
            views == walked_views(files@),
            pats == pattern_views(exclude_globs@),
            map.pairs() == scanned_pairs(views.take(i as int), pats, max_size_mb),
    {
        let f = &files[i];
        let relative = to_slash_path(f.relative.as_str());
        assert(views.take(i + 1).drop_last() =~= views.take(i as int));
        assert(views.take(i + 1).last() == views[i as int]);
        if !is_excluded(relative.as_str(), exclude_globs) && !over_size_limit(f.size, max_size_mb) {
            map.insert(relative, FileEntry { size: f.size, mtime_secs: f.mtime_secs });
        }
    }
    assert(views.take(files@.len() as int) =~= views);
    map
}

/// One directory met while walking the source tree: its path relative to the
/// source root as the platform spells it, and its modification time.
pub struct WalkedDir {
    pub relative: String,
    pub mtime_secs: i64,
}

/// The directories to mirror, in walk order: each path in `/` form with its
/// time, leaving out those an exclusion pattern matches.
pub open spec fn mirrored_dirs(dirs: Seq<WalkedDir>, patterns: Seq<Seq<char>>) -> Seq<(Seq<char>, i64)>
    decreases dirs.len(),
{
    if dirs.len() == 0 {
        Seq::empty()
    } else {
        let prev = mirrored_dirs(dirs.drop_last(), patterns);
        let p = slash_path(dirs.last().relative@);
        if excluded(p, patterns) { prev } else { prev.push((p, dirs.last().mtime_secs)) }
    }
}

/// Every walked directory that no pattern excludes is mirrored, with its `/`
/// path and its time; and every mirrored entry is such a directory.
pub proof fn law_mirrored_dirs_exact(dirs: Seq<WalkedDir>, patterns: Seq<Seq<char>>)
    ensures
        forall|i: int| 0 <= i < dirs.len() && !excluded(slash_path(#[trigger] dirs[i].relative@), patterns)
            ==> mirrored_dirs(dirs, patterns).contains((slash_path(dirs[i].relative@), dirs[i].mtime_secs)),
        forall|x: (Seq<char>, i64)| #[trigger] mirrored_dirs(dirs, patterns).contains(x) ==> exists|i: int| 0 <= i < dirs.len()
            && x == (slash_path(#[trigger] dirs[i].relative@), dirs[i].mtime_secs) && !excluded(x.0, patterns),
    decreases dirs.len(),
{
    if dirs.len() > 0 {
        let rest = dirs.drop_last();
        law_mirrored_dirs_exact(rest, patterns);
        let prev = mirrored_dirs(rest, patterns);
        let cur = mirrored_dirs(dirs, patterns);
        let last = dirs.len() - 1;
        let e = (slash_path(dirs[last].relative@), dirs[last].mtime_secs);
        assert(dirs.last() == dirs[last]);
        assert forall|i: int| 0 <= i < dirs.len() && !excluded(slash_path(#[trigger] dirs[i].relative@), patterns)
            implies cur.contains((slash_path(dirs[i].relative@), dirs[i].mtime_secs)) by {
            if i < last {
                assert(rest[i] == dirs[i]);
                let x = (slash_path(dirs[i].relative@), dirs[i].mtime_secs);
                assert(prev.contains(x));
                let k = choose|k: int| 0 <= k < prev.len() && prev[k] == x;
                if excluded(e.0, patterns) {
                    assert(cur == prev);
                } else {
                    assert(cur == prev.push(e));
                    assert(cur[k] == x);
                }
            } else {
                assert(cur == prev.push(e));
                assert(cur[prev.len() as int] == e);
            }
        }
        assert forall|x: (Seq<char>, i64)| #[trigger] cur.contains(x) implies exists|i: int| 0 <= i < dirs.len()
            && x == (slash_path(#[trigger] dirs[i].relative@), dirs[i].mtime_secs) && !excluded(x.0, patterns) by {
            let k = choose|k: int| 0 <= k < cur.len() && cur[k] == x;
            if k < prev.len() {
                if !excluded(e.0, patterns) {
                    assert(cur == prev.push(e));
                }
                assert(prev[k] == x);
                assert(prev.contains(x));
                let i = choose|i: int| 0 <= i < rest.len()
                    && x == (slash_path(#[trigger] rest[i].relative@), rest[i].mtime_secs) && !excluded(x.0, patterns);
                assert(rest[i] == dirs[i]);
            } else {
                assert(cur == prev.push(e));
                assert(x == e);
            }
        }
    }
}

pub open spec fn dir_views(v: Seq<(String, i64)>) -> Seq<(Seq<char>, i64)> {
    v.map_values(|d: (String, i64)| (d.0@, d.1))
}

/// The directories of the source tree that the target mirrors: excluded ones
/// are left out, the others keep their walk order and get their `/` path.
pub fn dirs_to_mirror(dirs: Vec<WalkedDir>, exclude_globs: &[String]) -> (r: Vec<(String, i64)>)
    ensures
        dir_views(r@) == mirrored_dirs(dirs@, pattern_views(exclude_globs@)),
        forall|i: int| 0 <= i < dirs@.len() && !excluded(slash_path(#[trigger] dirs@[i].relative@), pattern_views(exclude_globs@))
            ==> dir_views(r@).contains((slash_path(dirs@[i].relative@), dirs@[i].mtime_secs)),
        forall|x: (Seq<char>, i64)| #[trigger] dir_views(r@).contains(x) ==> exists|i: int| 0 <= i < dirs@.len()
            && x == (slash_path(#[trigger] dirs@[i].relative@), dirs@[i].mtime_secs) && !excluded(x.0, pattern_views(exclude_globs@)),
{
    proof {
        law_mirrored_dirs_exact(dirs@, pattern_views(exclude_globs@));
    }
    let mut r: Vec<(String, i64)> = Vec::new();
    let ghost pats = pattern_views(exclude_globs@);
    for i in 0..dirs.len()
        invariant
            pats == pattern_views(exclude_globs@),
            dir_views(r@) == mirrored_dirs(dirs@.take(i as int), pats),
    {
        assert(dirs@.take(i + 1).drop_last() =~= dirs@.take(i as int));
        assert(dirs@.take(i + 1).last() == dirs@[i as int]);
        let relative = to_slash_path(dirs[i].relative.as_str());
        if !is_excluded(relative.as_str(), exclude_globs) {
            let ghost before = r@;
            r.push((relative, dirs[i].mtime_secs));
            assert(dir_views(r@) =~= dir_views(before).push((slash_path(dirs@[i as int].relative@), dirs@[i as int].mtime_secs)));
        }
    }
    assert(dirs@.take(dirs@.len() as int) =~= dirs@);
    r
}

} // verus!
