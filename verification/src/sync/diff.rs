//! The mirror diff: what must be added, updated and deleted so that the
//! index follows the scanned source tree.

use vstd::prelude::*;

use crate::sync::path_map::{distinct_keys, has_key, lemma_lookup, lookup, PathMap};
use crate::sync::scanner::{FileEntry, ScanMap};

verus! {

/// One indexed file as the database holds it.
#[derive(Clone, Debug, PartialEq, Eq)]
pub struct DbEntry {
    pub id: i64,
    pub size: u64,
    pub mtime_secs: i64,
    pub content_hash: String,
}

/// Indexed files by relative path.
pub type DbMap = PathMap<DbEntry>;

/// One step that brings the target and the index in line with the source.
#[derive(Clone, Debug, PartialEq, Eq)]
pub enum SyncAction {
    Add { relative_path: String, size: u64, mtime_secs: i64 },
    Update { file_id: i64, relative_path: String, size: u64, mtime_secs: i64 },
    Delete { file_id: i64, relative_path: String },
}

/// A `SyncAction` with its path taken by its characters.
pub enum ActionView {
    Add { path: Seq<char>, size: u64, mtime_secs: i64 },
    Update { file_id: i64, path: Seq<char>, size: u64, mtime_secs: i64 },
    Delete { file_id: i64, path: Seq<char> },
}

impl View for SyncAction {
    type V = ActionView;

    open spec fn view(&self) -> ActionView {
        match self {
            SyncAction::Add { relative_path, size, mtime_secs } => ActionView::Add {
                path: relative_path@,
                size: *size,
                mtime_secs: *mtime_secs,
            },
            SyncAction::Update { file_id, relative_path, size, mtime_secs } => ActionView::Update {
                file_id: *file_id,
                path: relative_path@,
                size: *size,
                mtime_secs: *mtime_secs,
            },
            SyncAction::Delete { file_id, relative_path } => ActionView::Delete {
                file_id: *file_id,
                path: relative_path@,
            },
        }
    }
}

/// The action owed to a scanned file: `Add` when the index lacks its path,
/// `Update` when size or modification time differ from the index, none otherwise.
pub open spec fn scan_action(path: Seq<char>, e: FileEntry, db: Seq<(Seq<char>, DbEntry)>) -> Option<ActionView> {
    match lookup(db, path) {
        None => Some(ActionView::Add { path, size: e.size, mtime_secs: e.mtime_secs }),
        Some(d) => if e.size != d.size || e.mtime_secs != d.mtime_secs {
            Some(ActionView::Update { file_id: d.id, path, size: e.size, mtime_secs: e.mtime_secs })
        } else {
            None
        },
    }
}

/// The action owed to an indexed file: `Delete` when the scan lacks its path.
pub open spec fn delete_action(path: Seq<char>, d: DbEntry, scan: Seq<(Seq<char>, FileEntry)>) -> Option<ActionView> {
    if has_key(scan, path) {
        None
    } else {
        Some(ActionView::Delete { file_id: d.id, path })
    }
}

pub open spec fn scan_step(db: Seq<(Seq<char>, DbEntry)>) -> spec_fn((Seq<char>, FileEntry)) -> Option<ActionView> {
    |p: (Seq<char>, FileEntry)| scan_action(p.0, p.1, db)
}

pub open spec fn delete_step(scan: Seq<(Seq<char>, FileEntry)>) -> spec_fn((Seq<char>, DbEntry)) -> Option<ActionView> {
    |p: (Seq<char>, DbEntry)| delete_action(p.0, p.1, scan)
}

/// The diff: the actions of the scanned files in scan order, then the deletions
/// in index order.
pub open spec fn diff_actions(scan: Seq<(Seq<char>, FileEntry)>, db: Seq<(Seq<char>, DbEntry)>) -> Seq<ActionView> {
    scan.filter_map(scan_step(db)) + db.filter_map(delete_step(scan))
}

pub open spec fn view_actions(v: Seq<SyncAction>) -> Seq<ActionView> {
    v.map_values(|a: SyncAction| a@)
}

/// Computes the actions that make the index (and the target) follow the scan.
pub fn compute_diff(scan: &ScanMap, db: &DbMap) -> (actions: Vec<SyncAction>)
    ensures
        view_actions(actions@) == diff_actions(scan.pairs(), db.pairs()),
{
    let ghost s = scan.pairs();
    let ghost d = db.pairs();
    let mut actions: Vec<SyncAction> = Vec::new();

    let n = scan.len();
    for i in 0..n
        invariant
            n == s.len(),
            s == scan.pairs(),
            d == db.pairs(),
            view_actions(actions@) == s.take(i as int).filter_map(scan_step(d)),
    {
        let (path, entry) = scan.entry(i);
        let ghost before = actions@;
        proof {
            s.lemma_filter_map_take_succ(scan_step(d), i as int);
        }
        match db.get(path) {
            None => {
                actions.push(SyncAction::Add {
                    relative_path: path.clone(),
                    size: entry.size,
                    mtime_secs: entry.mtime_secs,
                });
                assert(view_actions(actions@) =~= view_actions(before).push(actions@.last()@));
            },
            Some(db_entry) => {
                if entry.size != db_entry.size || entry.mtime_secs != db_entry.mtime_secs {
                    actions.push(SyncAction::Update {
                        file_id: db_entry.id,
                        relative_path: path.clone(),
                        size: entry.size,
                        mtime_secs: entry.mtime_secs,
                    });
                    assert(view_actions(actions@) =~= view_actions(before).push(actions@.last()@));
                }
            },
        }
    }
    assert(s.take(n as int) =~= s);
    let ghost first = view_actions(actions@);

    let m = db.len();
    for j in 0..m
        invariant
            m == d.len(),
            s == scan.pairs(),
            d == db.pairs(),
            first == s.filter_map(scan_step(d)),
            view_actions(actions@) == first + d.take(j as int).filter_map(delete_step(s)),
    {
        let (path, db_entry) = db.entry(j);
        let ghost before = actions@;
        proof {
            d.lemma_filter_map_take_succ(delete_step(s), j as int);
        }
        if !scan.contains_key(path) {
            actions.push(SyncAction::Delete { file_id: db_entry.id, relative_path: path.clone() });
            assert(view_actions(actions@) =~= view_actions(before).push(actions@.last()@));
        }
    }
    assert(d.take(m as int) =~= d);
    actions
}

/// Size and modification time of each scanned path.
pub open spec fn scan_meta(scan: Seq<(Seq<char>, FileEntry)>) -> Map<Seq<char>, (u64, i64)> {
    Map::new(
        |k: Seq<char>| lookup(scan, k) is Some,
        |k: Seq<char>| (lookup(scan, k)->0.size, lookup(scan, k)->0.mtime_secs),
    )
}

/// Size and modification time of each indexed path.
pub open spec fn db_meta(db: Seq<(Seq<char>, DbEntry)>) -> Map<Seq<char>, (u64, i64)> {
    Map::new(
        |k: Seq<char>| lookup(db, k) is Some,
        |k: Seq<char>| (lookup(db, k)->0.size, lookup(db, k)->0.mtime_secs),
    )
}

/// The index metadata after carrying out one action.
pub open spec fn apply_action(m: Map<Seq<char>, (u64, i64)>, a: ActionView) -> Map<Seq<char>, (u64, i64)> {
    match a {
        ActionView::Add { path, size, mtime_secs } => m.insert(path, (size, mtime_secs)),
        ActionView::Update { path, size, mtime_secs, .. } => m.insert(path, (size, mtime_secs)),
        ActionView::Delete { path, .. } => m.remove(path),
    }
}

/// The index metadata after carrying out the actions in order.
pub open spec fn apply_actions(m: Map<Seq<char>, (u64, i64)>, acts: Seq<ActionView>) -> Map<Seq<char>, (u64, i64)>
    decreases acts.len(),
{
    if acts.len() == 0 {
        m
    } else {
        apply_action(apply_actions(m, acts.drop_last()), acts.last())
    }
}

proof fn lemma_apply_concat(m: Map<Seq<char>, (u64, i64)>, a: Seq<ActionView>, b: Seq<ActionView>)
    ensures
        apply_actions(m, a + b) == apply_actions(apply_actions(m, a), b),
    decreases b.len(),
{
    if b.len() == 0 {
        assert(a + b =~= a);
    } else {
        lemma_apply_concat(m, a, b.drop_last());
        assert((a + b).drop_last() =~= a + b.drop_last());
    }
}

proof fn lemma_lookup_has_key<V>(s: Seq<(Seq<char>, V)>, k: Seq<char>)
    ensures
        lookup(s, k) is Some ==> has_key(s, k),
        lookup(s, k) matches Some(v) ==> exists|i: int| 0 <= i < s.len() && s[i].0 == k && #[trigger] s[i].1 == v,
    decreases s.len(),
{
    if s.len() > 0 {
        lemma_lookup_has_key(s.drop_last(), k);
        if s.last().0 == k {
            assert(s[s.len() - 1].0 == k);
        } else if lookup(s, k) is Some {
            let t = s.drop_last();
            let i = choose|i: int| 0 <= i < t.len() && t[i].0 == k && #[trigger] t[i].1 == lookup(s, k)->0;
            assert(s[i] == t[i]);
        }
    }
}

proof fn lemma_distinct_prefix<V>(s: Seq<(Seq<char>, V)>, n: int)
    requires
        distinct_keys(s),
        0 <= n <= s.len(),
    ensures
        distinct_keys(s.take(n)),
{
    let t = s.take(n);
    assert forall|i: int, j: int| 0 <= i < j < t.len() implies #[trigger] t[i].0 != #[trigger] t[j].0 by {
        assert(t[i] == s[i] && t[j] == s[j]);
    }
}

/// After the actions of the first scanned files, those paths carry their scanned
/// metadata and every other path is as the index had it.
proof fn lemma_scan_part(t: Seq<(Seq<char>, FileEntry)>, d: Seq<(Seq<char>, DbEntry)>, k: Seq<char>)
    requires
        distinct_keys(t),
    ensures
        ({
            let m1 = apply_actions(db_meta(d), t.filter_map(scan_step(d)));
            &&& has_key(t, k) ==> m1.contains_key(k) && m1[k] == scan_meta(t)[k] && scan_meta(t).contains_key(k)
            &&& !has_key(t, k) ==> (m1.contains_key(k) == db_meta(d).contains_key(k)
                && (m1.contains_key(k) ==> m1[k] == db_meta(d)[k]))
        }),
    decreases t.len(),
{
    if t.len() > 0 {
        let u = t.drop_last();
        let x = t.last();
        lemma_distinct_prefix(t, t.len() - 1);
        assert(u =~= t.take(t.len() - 1));
        lemma_scan_part(u, d, k);
        lemma_scan_part(u, d, x.0);
        let fu = u.filter_map(scan_step(d));
        assert(t.filter_map(scan_step(d)) == match scan_step(d)(x) {
            Some(a) => fu + seq![a],
            None => fu,
        });
        let m0 = db_meta(d);
        let mu = apply_actions(m0, fu);
        assert(!has_key(u, x.0)) by {
            if has_key(u, x.0) {
                let i = choose|i: int| 0 <= i < u.len() && #[trigger] u[i].0 == x.0;
                assert(t[i].0 != t[t.len() - 1].0);
            }
        }
        match scan_step(d)(x) {
            Some(a) => {
                assert((fu + seq![a]).drop_last() =~= fu);
                assert(apply_actions(m0, fu + seq![a]) == apply_action(mu, a));
            },
            None => {
                lemma_lookup_has_key(d, x.0);
            },
        }
        if k != x.0 {
            assert(has_key(t, k) == has_key(u, k)) by {
                if has_key(t, k) {
                    let i = choose|i: int| 0 <= i < t.len() && #[trigger] t[i].0 == k;
                    assert(i < u.len());
                    assert(u[i] == t[i]);
                }
                if has_key(u, k) {
                    let i = choose|i: int| 0 <= i < u.len() && #[trigger] u[i].0 == k;
                    assert(u[i] == t[i]);
                }
            }
        } else {
            assert(t[t.len() - 1].0 == k);
        }
    }
}

/// Deletions remove the indexed paths that the scan lacks and touch nothing else.
proof fn lemma_delete_part(
    m1: Map<Seq<char>, (u64, i64)>,
    w: Seq<(Seq<char>, DbEntry)>,
    s: Seq<(Seq<char>, FileEntry)>,
    k: Seq<char>,
)
    ensures
        ({
            let m2 = apply_actions(m1, w.filter_map(delete_step(s)));
            &&& (has_key(w, k) && !has_key(s, k)) ==> !m2.contains_key(k)
            &&& !(has_key(w, k) && !has_key(s, k)) ==> (m2.contains_key(k) == m1.contains_key(k)
                && (m2.contains_key(k) ==> m2[k] == m1[k]))
        }),
    decreases w.len(),
{
    if w.len() > 0 {
        let u = w.drop_last();
        let x = w.last();
        lemma_delete_part(m1, u, s, k);
        let fu = u.filter_map(delete_step(s));
        match delete_step(s)(x) {
            Some(a) => {
                assert((fu + seq![a]).drop_last() =~= fu);
            },
            None => {},
        }
        assert(has_key(w, k) == (has_key(u, k) || x.0 == k)) by {
            if has_key(w, k) && x.0 != k {
                let i = choose|i: int| 0 <= i < w.len() && #[trigger] w[i].0 == k;
                assert(i < u.len());
                assert(u[i] == w[i]);
            }
            if has_key(u, k) {
                let i = choose|i: int| 0 <= i < u.len() && #[trigger] u[i].0 == k;
                assert(u[i] == w[i]);
            }
            if x.0 == k {
                assert(w[w.len() - 1].0 == k);
            }
        }
    }
}

/// Mirror law: carrying out the diff on the index metadata yields exactly the
/// scanned metadata; the index then follows the source (new and changed files
/// take the scanned size and time, vanished files leave the index).
pub proof fn law_diff_mirrors_scan(scan: ScanMap, db: DbMap)
    requires
        scan.paths_distinct(),
        db.paths_distinct(),
    ensures
        apply_actions(db_meta(db.pairs()), diff_actions(scan.pairs(), db.pairs())) == scan_meta(scan.pairs()),
{
    let s = scan.pairs();
    let d = db.pairs();
    let fs = s.filter_map(scan_step(d));
    let fd = d.filter_map(delete_step(s));
    let m1 = apply_actions(db_meta(d), fs);
    lemma_apply_concat(db_meta(d), fs, fd);
    let r = apply_actions(m1, fd);
    assert forall|k: Seq<char>| #[trigger] r.contains_key(k) == scan_meta(s).contains_key(k)
        && (r.contains_key(k) ==> r[k] == scan_meta(s)[k]) by {
        lemma_scan_part(s, d, k);
        lemma_delete_part(m1, d, s, k);
        lemma_lookup(s, k);
        lemma_lookup_has_key(d, k);
    }
    assert(r =~= scan_meta(s));
}

/// Law: when the index already holds every scanned path with the scanned size and
/// time and nothing else, the diff is empty (an unchanged tree costs no work).
pub proof fn law_diff_empty_when_in_sync(scan: ScanMap, db: DbMap)
    requires
        scan.paths_distinct(),
        db.paths_distinct(),
        db_meta(db.pairs()) == scan_meta(scan.pairs()),
    ensures
        diff_actions(scan.pairs(), db.pairs()) == Seq::<ActionView>::empty(),
{
    let s = scan.pairs();
    let d = db.pairs();
    assert forall|i: int| 0 <= i < s.len() implies #[trigger] lookup(s, s[i].0) == Some(s[i].1) by {
        lemma_lookup(s, s[i].0);
    }
    assert forall|i: int| 0 <= i < d.len() implies #[trigger] lookup(d, d[i].0) is Some by {
        lemma_lookup(d, d[i].0);
    }
    lemma_no_scan_actions(s, s, d);
    lemma_no_delete_actions(d, d, s);
    assert(diff_actions(s, d) =~= Seq::<ActionView>::empty());
}

/// Two indexes hold the same paths, and under each path the same id, size and
/// time; their content hashes, and the order of their entries, may differ.
pub open spec fn agree_but_hash(d1: Seq<(Seq<char>, DbEntry)>, d2: Seq<(Seq<char>, DbEntry)>) -> bool {
    forall|k: Seq<char>| {
        &&& (#[trigger] lookup(d1, k) is Some) == (lookup(d2, k) is Some)
        &&& lookup(d1, k) is Some ==> {
            &&& lookup(d1, k)->0.id == lookup(d2, k)->0.id
            &&& lookup(d1, k)->0.size == lookup(d2, k)->0.size
            &&& lookup(d1, k)->0.mtime_secs == lookup(d2, k)->0.mtime_secs
        }
    }
}

/// `a` is the deletion that the index `d` owes for a path the scan `s` lacks.
pub open spec fn owed_deletion(d: Seq<(Seq<char>, DbEntry)>, s: Seq<(Seq<char>, FileEntry)>, a: ActionView) -> bool {
    match a {
        ActionView::Delete { file_id, path } => !has_key(s, path) && lookup(d, path) is Some && lookup(d, path)->0.id == file_id,
        _ => false,
    }
}

proof fn lemma_deletions(d: Seq<(Seq<char>, DbEntry)>, s: Seq<(Seq<char>, FileEntry)>)
    requires
        distinct_keys(d),
    ensures
        d.filter_map(delete_step(s)).no_duplicates(),
        forall|a: ActionView| #[trigger] d.filter_map(delete_step(s)).contains(a) == owed_deletion(d, s, a),
    decreases d.len(),
{
    if d.len() > 0 {
        let rest = d.drop_last();
        assert(distinct_keys(rest)) by {
            assert forall|i: int, j: int| 0 <= i < j < rest.len() implies #[trigger] rest[i].0 != #[trigger] rest[j].0 by {
                assert(rest[i] == d[i] && rest[j] == d[j]);
            }
        }
        lemma_deletions(rest, s);
        let prev = rest.filter_map(delete_step(s));
        let cur = d.filter_map(delete_step(s));
        let last = d.last();
        assert(!has_key(rest, last.0)) by {
            if has_key(rest, last.0) {
                let i = choose|i: int| 0 <= i < rest.len() && #[trigger] rest[i].0 == last.0;
                assert(d[i].0 != d[d.len() - 1].0);
            }
        }
        assert forall|k: Seq<char>| k != last.0 implies #[trigger] lookup(d, k) == lookup(rest, k) by {}
        assert(lookup(d, last.0) == Some(last.1));
        lemma_lookup(rest, last.0);
        assert forall|a: ActionView| #[trigger] cur.contains(a) == owed_deletion(d, s, a) by {
            if has_key(s, last.0) {
                assert(cur == prev);
                if let ActionView::Delete { file_id, path } = a {
                    if path == last.0 {
                        assert(!owed_deletion(d, s, a));
                        assert(!owed_deletion(rest, s, a));
                    }
                }
            } else {
                let n = ActionView::Delete { file_id: last.1.id, path: last.0 };
                assert(cur == prev + seq![n]);
                if cur.contains(a) {
                    let i = choose|i: int| 0 <= i < cur.len() && cur[i] == a;
                    if i < prev.len() {
                        assert(prev[i] == a);
                        assert(prev.contains(a));
                    }
                }
                if prev.contains(a) {
                    let i = choose|i: int| 0 <= i < prev.len() && prev[i] == a;
                    assert(cur[i] == a);
                }
                if a == n {
                    assert(cur[prev.len() as int] == a);
                }
                if let ActionView::Delete { file_id, path } = a {
                    if path == last.0 && a != n {
                        assert(!owed_deletion(d, s, a));
                    }
                }
            }
        }
        if !has_key(s, last.0) {
            let n = ActionView::Delete { file_id: last.1.id, path: last.0 };
            assert(!owed_deletion(rest, s, n));
            assert(!prev.contains(n));
            assert forall|i: int, j: int| 0 <= i < cur.len() && 0 <= j < cur.len() && i != j implies cur[i] != cur[j] by {
                if i < prev.len() && j < prev.len() {
                    assert(cur[i] == prev[i] && cur[j] == prev[j]);
                } else if i < prev.len() {
                    assert(prev.contains(cur[i]));
                } else {
                    assert(prev.contains(cur[j]));
                }
            }
        }
    }
}

proof fn lemma_same_members(a: Seq<ActionView>, b: Seq<ActionView>)
    requires
        a.no_duplicates(),
        b.no_duplicates(),
        forall|x: ActionView| #[trigger] a.contains(x) == b.contains(x),
    ensures
        a.to_multiset() == b.to_multiset(),
{
    broadcast use vstd::seq_lib::group_to_multiset_ensures;
    a.lemma_multiset_has_no_duplicates();
    b.lemma_multiset_has_no_duplicates();
    assert forall|x: ActionView| #[trigger] a.to_multiset().count(x) == b.to_multiset().count(x) by {
        if a.contains(x) {
            assert(b.contains(x));
            assert(a.to_multiset().contains(x));
            assert(b.to_multiset().contains(x));
        } else {
            assert(!b.contains(x));
        }
    }
    assert(a.to_multiset() =~= b.to_multiset());
}

/// The diff never reads the stored content hashes: two indexes that hold the
/// same paths with the same ids, sizes and modification times give the same
/// actions for the scanned files, in the same order, and the same deletions, in
/// the order of each index.
pub proof fn law_diff_ignores_content_hash(scan: ScanMap, db: DbMap, other: DbMap)
    requires
        db.paths_distinct(),
        other.paths_distinct(),
        agree_but_hash(db.pairs(), other.pairs()),
    ensures
        scan.pairs().filter_map(scan_step(other.pairs())) == scan.pairs().filter_map(scan_step(db.pairs())),
        diff_actions(scan.pairs(), other.pairs()).to_multiset() == diff_actions(scan.pairs(), db.pairs()).to_multiset(),
{
    let s = scan.pairs();
    let d1 = db.pairs();
    let d2 = other.pairs();
    assert forall|p: (Seq<char>, FileEntry)| #[trigger] scan_step(d1)(p) == scan_step(d2)(p) by {
        assert(lookup(d1, p.0) is Some == lookup(d2, p.0) is Some);
    }
    assert(scan_step(d1) =~= scan_step(d2));
    lemma_deletions(d1, s);
    lemma_deletions(d2, s);
    let x1 = d1.filter_map(delete_step(s));
    let x2 = d2.filter_map(delete_step(s));
    assert forall|a: ActionView| #[trigger] x1.contains(a) == x2.contains(a) by {
        if let ActionView::Delete { file_id, path } = a {
            assert(lookup(d1, path) is Some == lookup(d2, path) is Some);
        }
    }
    lemma_same_members(x1, x2);
    let f = s.filter_map(scan_step(d1));
    vstd::seq_lib::lemma_multiset_commutative(f, x1);
    vstd::seq_lib::lemma_multiset_commutative(f, x2);
}

proof fn lemma_no_scan_actions(t: Seq<(Seq<char>, FileEntry)>, s: Seq<(Seq<char>, FileEntry)>, d: Seq<(Seq<char>, DbEntry)>)
    requires
        distinct_keys(s),
        db_meta(d) == scan_meta(s),
        forall|i: int| 0 <= i < t.len() ==> #[trigger] lookup(s, t[i].0) == Some(t[i].1),
    ensures
        t.filter_map(scan_step(d)) == Seq::<ActionView>::empty(),
    decreases t.len(),
{
    if t.len() > 0 {
        let u = t.drop_last();
        assert forall|i: int| 0 <= i < u.len() implies #[trigger] lookup(s, u[i].0) == Some(u[i].1) by {
            assert(u[i] == t[i]);
        }
        lemma_no_scan_actions(u, s, d);
        let x = t.last();
        assert(lookup(s, t[t.len() - 1].0) == Some(t[t.len() - 1].1));
        assert(scan_meta(s).contains_key(x.0));
        assert(db_meta(d).contains_key(x.0));
        let dd = lookup(d, x.0)->0;
        assert(scan_meta(s)[x.0] == (x.1.size, x.1.mtime_secs));
        assert(db_meta(d)[x.0] == (dd.size, dd.mtime_secs));
        assert(scan_step(d)(x) is None);
    }
}

proof fn lemma_no_delete_actions(w: Seq<(Seq<char>, DbEntry)>, d: Seq<(Seq<char>, DbEntry)>, s: Seq<(Seq<char>, FileEntry)>)
    requires
        distinct_keys(s),
        db_meta(d) == scan_meta(s),
        forall|i: int| 0 <= i < w.len() ==> #[trigger] lookup(d, w[i].0) is Some,
    ensures
        w.filter_map(delete_step(s)) == Seq::<ActionView>::empty(),
    decreases w.len(),
{
    if w.len() > 0 {
        let u = w.drop_last();
        assert forall|i: int| 0 <= i < u.len() implies #[trigger] lookup(d, u[i].0) is Some by {
            assert(u[i] == w[i]);
        }
        lemma_no_delete_actions(u, d, s);
        let x = w.last();
        assert(lookup(d, w[w.len() - 1].0) is Some);
        assert(db_meta(d).contains_key(x.0));
        assert(scan_meta(s).contains_key(x.0));
        lemma_lookup(s, x.0);
        assert(delete_step(s)(x) is None);
    }
}

} // verus!
