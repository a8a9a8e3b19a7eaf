//! The bookkeeping of a sync run: which target directories are stale, what a run
//! reports and how its log entry reads.

use vstd::prelude::*;

use crate::order::{is_index_permutation, order_by_count_desc, permuted, sorted_desc_stably};
use crate::sync::executor::SyncStats;
use crate::text::{chars_of, hex_char, join, push_char, string_views};

verus! {

/// What a sync run reports.
#[derive(Clone, Debug, PartialEq, Eq)]
pub struct SyncResult {
    pub task_id: i64,
    pub files_scanned: usize,
    pub files_copied: u64,
    pub files_deleted: u64,
    pub bytes_transferred: u64,
    pub errors: Vec<String>,
}

/// The report of a run: the task, the number of scanned files and the counters.
pub fn finish(task_id: i64, files_scanned: usize, stats: SyncStats) -> (r: SyncResult)
    ensures
        r.task_id == task_id,
        r.files_scanned == files_scanned,
        r.files_copied == stats.files_copied,
        r.files_deleted == stats.files_deleted,
        r.bytes_transferred == stats.bytes_transferred,
        r.errors@ == stats.errors@,
{
    SyncResult {
        task_id,
        files_scanned,
        files_copied: stats.files_copied,
        files_deleted: stats.files_deleted,
        bytes_transferred: stats.bytes_transferred,
        errors: stats.errors,
    }
}

/// The status a run is logged with: `success` without errors, `partial_error` otherwise.
pub fn sync_status(errors: &Vec<String>) -> (s: &'static str)
    ensures
        s@ == if errors@.len() == 0 { "success"@ } else { "partial_error"@ },
{
    if errors.len() == 0 {
        "success"
    } else {
        "partial_error"
    }
}

/// A character inside a JSON string as serde_json writes it: `"` and `\` are
/// escaped with a backslash, backspace, tab, line feed, form feed and carriage
/// return get their short escapes, the other control characters below U+0020 are
/// written `\u00` and two lower-case hex digits; every other character stands
/// for itself.
pub open spec fn json_escape(c: char) -> Seq<char> {
    let n = c as u32;
    if c == '"' {
        seq!['\\', '"']
    } else if c == '\\' {
        seq!['\\', '\\']
    } else if n == 0x08 {
        seq!['\\', 'b']
    } else if n == 0x09 {
        seq!['\\', 't']
    } else if n == 0x0A {
        seq!['\\', 'n']
    } else if n == 0x0C {
        seq!['\\', 'f']
    } else if n == 0x0D {
        seq!['\\', 'r']
    } else if n < 0x20 {
        seq!['\\', 'u', '0', '0', hex_char((n / 16) as nat), hex_char((n % 16) as nat)]
    } else {
        seq![c]
    }
}

/// The characters of `s`, each escaped.
pub open spec fn json_escaped(s: Seq<char>) -> Seq<char>
    decreases s.len(),
{
    if s.len() == 0 { Seq::empty() } else { json_escaped(s.drop_last()) + json_escape(s.last()) }
}

/// A JSON string: the escaped characters between double quotes.
pub open spec fn json_string(s: Seq<char>) -> Seq<char> {
    seq!['"'] + json_escaped(s) + seq!['"']
}

/// The text `serde_json::to_string` gives for a list of strings: the JSON strings
/// separated by commas, between brackets, with no white space.
pub open spec fn json_string_array(items: Seq<Seq<char>>) -> Seq<char> {
    seq!['['] + join(items.map_values(|s: Seq<char>| json_string(s)), seq![',']) + seq![']']
}

/// Calls `serde_json::to_string` on a list of strings, which cannot fail for
/// strings. Trusted: the text is the JSON array of the strings as serde_json's
/// compact writer escapes them.
#[verifier::external_body]
fn json_array_of(items: &Vec<String>) -> (s: String)
    ensures
        s@ == json_string_array(string_views(items@)),
{
    serde_json::to_string(items).unwrap_or_default()
}

/// The errors of a run as the JSON array the sync log stores.
pub fn errors_json(errors: &Vec<String>) -> (s: String)
    ensures
        s@ == json_string_array(string_views(errors@)),
{
    json_array_of(errors)
}

/// Number of `/` in `s`: one less than the number of components of a relative path.
pub open spec fn slash_count(s: Seq<char>) -> nat
    decreases s.len(),
{
    if s.len() == 0 {
        0
    } else {
        slash_count(s.drop_last()) + if s.last() == '/' { 1nat } else { 0nat }
    }
}

fn count_slashes(s: &String) -> (n: usize)
    ensures
        n == slash_count(s@),
{
    let cs = chars_of(s.as_str());
    let mut n: usize = 0;
    for i in 0..cs.len()
        invariant
            cs@ == s@,
            n == slash_count(s@.take(i as int)),
            n <= i,
    {
        assert(s@.take(i + 1).drop_last() =~= s@.take(i as int));
        if cs[i] == '/' {
            n = n + 1;
        }
    }
    assert(s@.take(cs@.len() as int) =~= s@);
    n
}

/// The target directories that the source no longer has, in walk order.
pub open spec fn stale_candidates(target: Seq<Seq<char>>, source: Seq<Seq<char>>) -> Seq<Seq<char>>
    decreases target.len(),
{
    if target.len() == 0 {
        Seq::empty()
    } else if source.contains(target.last()) {
        stale_candidates(target.drop_last(), source)
    } else {
        stale_candidates(target.drop_last(), source).push(target.last())
    }
}

/// `out` holds the stale target directories, deepest first, directories of equal
/// depth in walk order (so children come before their parents).
pub open spec fn stale_order(out: Seq<Seq<char>>, target: Seq<Seq<char>>, source: Seq<Seq<char>>) -> bool {
    let cand = stale_candidates(target, source);
    exists|p: Seq<usize>|
        #![trigger permuted(out, cand, p)]
        is_index_permutation(p, cand.len())
            && sorted_desc_stably(cand.map_values(|d: Seq<char>| slash_count(d) as usize), p)
            && permuted(out, cand, p)
}

proof fn lemma_candidates(target: Seq<Seq<char>>, source: Seq<Seq<char>>)
    ensures
        forall|x: Seq<char>| #[trigger] stale_candidates(target, source).contains(x)
            <==> (target.contains(x) && !source.contains(x)),
    decreases target.len(),
{
    if target.len() > 0 {
        let rest = target.drop_last();
        lemma_candidates(rest, source);
        let prev = stale_candidates(rest, source);
        let cur = stale_candidates(target, source);
        assert forall|x: Seq<char>| #[trigger] cur.contains(x) <==> (target.contains(x) && !source.contains(x)) by {
            if rest.contains(x) {
                let i = choose|i: int| 0 <= i < rest.len() && rest[i] == x;
                assert(target[i] == x);
            }
            if target.contains(x) && x != target.last() {
                let i = choose|i: int| 0 <= i < target.len() && target[i] == x;
                assert(i < target.len() - 1);
                assert(rest[i] == x);
            }
            if target.contains(x) && x == target.last() {
            }
            assert(target[target.len() - 1] == target.last());
            if !source.contains(target.last()) {
                assert(cur == prev.push(target.last()));
                if cur.contains(x) {
                    let i = choose|i: int| 0 <= i < cur.len() && cur[i] == x;
                    if i < prev.len() {
                        assert(prev[i] == x);
                    }
                }
                if prev.contains(x) {
                    let i = choose|i: int| 0 <= i < prev.len() && prev[i] == x;
                    assert(cur[i] == x);
                }
                if x == target.last() {
                    assert(cur[prev.len() as int] == x);
                }
            }
        }
    }
}

/// Every position of `0..n` is hit by an index permutation.
proof fn lemma_permutation_onto(p: Seq<usize>, n: nat, j: int)
    requires
        is_index_permutation(p, n),
        0 <= j < n,
    ensures
        exists|i: int| 0 <= i < p.len() && p[i] as int == j,
{
    let ps = p.map_values(|x: usize| x as int);
    if !exists|i: int| 0 <= i < p.len() && p[i] as int == j {
        assert(ps.no_duplicates()) by {
            assert forall|a: int, b: int| 0 <= a < ps.len() && 0 <= b < ps.len() && a != b implies ps[a] != ps[b] by {
                if a < b {
                    assert(p[a] != p[b]);
                } else {
                    assert(p[b] != p[a]);
                }
            }
        }
        ps.unique_seq_to_set();
        let range = vstd::set_lib::set_int_range(0, n as int);
        vstd::set_lib::lemma_int_range(0, n as int);
        assert(range.contains(j));
        assert forall|x: int| ps.to_set().contains(x) implies range.remove(j).contains(x) by {
            let i = choose|i: int| 0 <= i < ps.len() && ps[i] == x;
            assert(p[i] < n);
        }
        vstd::set_lib::lemma_len_subset(ps.to_set(), range.remove(j));
    }
}

/// Stale directories are exactly the target directories the source lacks: a
/// directory is in the output when it is a target directory equal to no source
/// directory, and nothing else is (a directory below a kept one is still stale).
pub proof fn law_stale_dirs_exact(out: Seq<Seq<char>>, target: Seq<Seq<char>>, source: Seq<Seq<char>>)
    requires
        stale_order(out, target, source),
    ensures
        forall|x: Seq<char>| #[trigger] out.contains(x) <==> (target.contains(x) && !source.contains(x)),
{
    let cand = stale_candidates(target, source);
    lemma_candidates(target, source);
    let p = choose|p: Seq<usize>|
        #![trigger permuted(out, cand, p)]
        is_index_permutation(p, cand.len())
            && sorted_desc_stably(cand.map_values(|d: Seq<char>| slash_count(d) as usize), p)
            && permuted(out, cand, p);
    assert forall|x: Seq<char>| #[trigger] out.contains(x) <==> (target.contains(x) && !source.contains(x)) by {
        if out.contains(x) {
            let i = choose|i: int| 0 <= i < out.len() && out[i] == x;
            assert(out[i] == cand[p[i] as int]);
            assert(cand.contains(x));
        }
        if cand.contains(x) {
            let j = choose|j: int| 0 <= j < cand.len() && cand[j] == x;
            lemma_permutation_onto(p, cand.len(), j);
            let i = choose|i: int| 0 <= i < p.len() && p[i] as int == j;
            assert(out[i] == x);
        }
    }
}

fn holds_string(v: &Vec<String>, s: &String) -> (b: bool)
    ensures
        b == string_views(v@).contains(s@),
{
    for i in 0..v.len()
        invariant
            forall|k: int| 0 <= k < i ==> v@[k]@ != s@,
    {
        if v[i] == *s {
            assert(string_views(v@)[i as int] == s@);
            return true;
        }
    }
    assert forall|k: int| 0 <= k < string_views(v@).len() implies string_views(v@)[k] != s@ by {
        assert(string_views(v@)[k] == v@[k]@);
    }
    false
}

/// The target directories (relative, `/` separated, in walk order) to remove
/// because the source no longer has them, deepest first.
pub fn stale_dirs(target_dirs: Vec<String>, source_dirs: &Vec<String>) -> (out: Vec<String>)
    ensures
        stale_order(string_views(out@), string_views(target_dirs@), string_views(source_dirs@)),
        forall|x: Seq<char>| #[trigger] string_views(out@).contains(x)
            <==> (string_views(target_dirs@).contains(x) && !string_views(source_dirs@).contains(x)),
{
    let ghost target_views = string_views(target_dirs@);
    let out = stale_dirs_ordered(target_dirs, source_dirs);
    proof {
        law_stale_dirs_exact(string_views(out@), target_views, string_views(source_dirs@));
    }
    out
}

fn stale_dirs_ordered(target_dirs: Vec<String>, source_dirs: &Vec<String>) -> (out: Vec<String>)
    ensures
        stale_order(string_views(out@), string_views(target_dirs@), string_views(source_dirs@)),
{
    let ghost tv = string_views(target_dirs@);
    let ghost sv = string_views(source_dirs@);
    let mut cand: Vec<String> = Vec::new();
    for i in 0..target_dirs.len()
        invariant
            tv == string_views(target_dirs@),
            sv == string_views(source_dirs@),
            string_views(cand@) == stale_candidates(tv.take(i as int), sv),
    {
        assert(tv.take(i + 1).drop_last() =~= tv.take(i as int));
        assert(tv.take(i + 1).last() == target_dirs@[i as int]@);
        if !holds_string(source_dirs, &target_dirs[i]) {
            let ghost before = cand@;
            cand.push(target_dirs[i].clone());
            assert(string_views(cand@) =~= string_views(before).push(target_dirs@[i as int]@));
        }
    }
    assert(tv.take(target_dirs@.len() as int) =~= tv);
    let ghost cv = string_views(cand@);
    let mut depths: Vec<usize> = Vec::new();
    for j in 0..cand.len()
        invariant
            cv == string_views(cand@),
            depths@.len() == j,
            forall|k: int| 0 <= k < j ==> #[trigger] depths@[k] == slash_count(cv[k]) as usize,
    {
        let d = count_slashes(&cand[j]);
        depths.push(d);
    }
    assert(depths@ =~= cv.map_values(|d: Seq<char>| slash_count(d) as usize));
    let order = order_by_count_desc(&depths);
    let mut out: Vec<String> = Vec::new();
    for k in 0..order.len()
        invariant
            cv == string_views(cand@),
            is_index_permutation(order@, cand@.len()),
            out@.len() == k,
            forall|m: int| 0 <= m < k ==> #[trigger] out@[m]@ == cv[order@[m] as int],
    {
        out.push(cand[order[k]].clone());
    }
    assert(permuted(string_views(out@), cv, order@));
    out
}

/// The last component of a `/` separated path: what follows the last `/`, or the
/// whole path when it has none.
pub open spec fn last_component(s: Seq<char>) -> Seq<char>
    decreases s.len(),
{
    if s.len() == 0 {
        Seq::empty()
    } else if s.last() == '/' {
        Seq::empty()
    } else {
        last_component(s.drop_last()).push(s.last())
    }
}

/// The file name of an index path.
pub fn file_name(relative_path: &str) -> (name: String)
    ensures
        name@ == last_component(relative_path@),
{
    let cs = chars_of(relative_path);
    let mut start: usize = cs.len();
    assert(relative_path@.take(start as int) =~= relative_path@);
    assert(relative_path@.subrange(start as int, start as int) =~= Seq::<char>::empty());
    while start > 0 && cs[start - 1] != '/'
        invariant
            cs@ == relative_path@,
            start <= cs@.len(),
            last_component(relative_path@) == last_component(relative_path@.take(start as int)) + relative_path@.subrange(start as int, cs@.len() as int),
        decreases start,
    {
        assert(relative_path@.take(start as int).drop_last() =~= relative_path@.take(start - 1));
        assert(relative_path@.subrange(start - 1, cs@.len() as int) =~= seq![relative_path@[start - 1]] + relative_path@.subrange(start as int, cs@.len() as int));
        start = start - 1;
    }
    assert(last_component(relative_path@.take(start as int)) =~= Seq::<char>::empty()) by {
        if start > 0 {
            assert(relative_path@.take(start as int).last() == '/');
        }
    }
    let mut name = String::new();
    for i in start..cs.len()
        invariant
            cs@ == relative_path@,
            start <= cs@.len(),
            name@ == relative_path@.subrange(start as int, i as int),
    {
        push_char(&mut name, cs[i]);
        assert(relative_path@.subrange(start as int, i + 1) =~= relative_path@.subrange(start as int, i as int).push(cs@[i as int]));
    }
    name
}

} // verus!
