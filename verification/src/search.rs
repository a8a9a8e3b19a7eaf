//! Search: turning user text into a full-text query, and building the statement
//! that combines text, hierarchical tag filters, task filter and paging.

use vstd::prelude::*;

use crate::text::{chars_of, decimal, join, join_strings, occurs_at, push_char, push_decimal, str_eq, string_of, string_views};

verus! {

/// A tag as shown beside a file.
#[derive(Clone, Debug, PartialEq, Eq)]
pub struct TagSummary {
    pub id: i64,
    pub name: String,
    pub color: String,
}

/// An indexed file or directory with its tags.
#[derive(Clone, Debug, PartialEq, Eq)]
pub struct FileRecord {
    pub id: i64,
    pub task_id: i64,
    pub relative_path: String,
    pub size: i64,
    pub mtime: i64,
    pub content_hash: String,
    pub status: String,
    pub last_synced_at: i64,
    pub kind: String,
    pub tags: Vec<TagSummary>,
}

/// A search request. `tag_logic` "and" asks for files under every given tag;
/// anything else (the default) for files under any of them.
#[derive(Clone, Debug, PartialEq, Eq)]
pub struct SearchQuery {
    pub text: Option<String>,
    pub tag_ids: Option<Vec<i64>>,
    pub tag_logic: Option<String>,
    pub task_id: Option<i64>,
    pub limit: Option<i64>,
    pub offset: Option<i64>,
}

/// One entry of the sync history.
#[derive(Clone, Debug, PartialEq, Eq)]
pub struct SyncLog {
    pub id: i64,
    pub task_id: i64,
    pub started_at: i64,
    pub finished_at: Option<i64>,
    pub files_scanned: i64,
    pub files_copied: i64,
    pub files_deleted: i64,
    pub bytes_transferred: i64,
    pub errors: String,
    pub status: String,
}

/// A value bound to a `?` of a statement.
#[derive(Clone, Debug, PartialEq, Eq)]
pub enum SqlParam {
    Integer(i64),
    Text(String),
}

/// A statement and the values of its `?` placeholders, in order.
#[derive(Clone, Debug, PartialEq, Eq)]
pub struct Statement {
    pub sql: String,
    pub params: Vec<SqlParam>,
}

/// The Unicode White_Space property, which `char::is_whitespace` tests: the
/// controls U+0009 to U+000D, the space, U+0085, the no-break space U+00A0,
/// U+1680, the spaces U+2000 to U+200A, the line and paragraph separators
/// U+2028 and U+2029, U+202F, U+205F and the ideographic space U+3000.
pub open spec fn is_white_space(c: char) -> bool {
    let n = c as u32;
    ||| 0x09 <= n <= 0x0D
    ||| n == 0x20
    ||| n == 0x85
    ||| n == 0xA0
    ||| n == 0x1680
    ||| 0x2000 <= n <= 0x200A
    ||| n == 0x2028
    ||| n == 0x2029
    ||| n == 0x202F
    ||| n == 0x205F
    ||| n == 0x3000
}

/// Whether `c` has the Unicode White_Space property.
pub fn char_is_whitespace(c: char) -> (b: bool)
    ensures
        b == is_white_space(c),
{
    let n = c as u32;
    (0x09 <= n && n <= 0x0D) || n == 0x20 || n == 0x85 || n == 0xA0 || n == 0x1680
        || (0x2000 <= n && n <= 0x200A) || n == 0x2028 || n == 0x2029 || n == 0x202F
        || n == 0x205F || n == 0x3000
}

/// What `char::is_alphanumeric` says of `c`: whether it has the Unicode
/// Alphabetic property or is a number (general categories Nd, Nl, No).
pub uninterp spec fn is_alphanumeric(c: char) -> bool;

/// An ASCII letter or digit.
pub open spec fn ascii_alphanumeric(c: char) -> bool {
    ('0' <= c <= '9') || ('A' <= c <= 'Z') || ('a' <= c <= 'z')
}

/// Calls `char::is_alphanumeric`. Trusted: the result depends on the character
/// alone, and among ASCII characters exactly the letters and digits are
/// alphabetic or numeric (so `*`, `_`, `-` and the space are not).
#[verifier::external_body]
fn char_is_alphanumeric(c: char) -> (b: bool)
    ensures
        b == is_alphanumeric(c),
        (c as u32) < 128 ==> b == ascii_alphanumeric(c),
{
    c.is_alphanumeric()
}

/// The pieces of `s` between white space characters, empty pieces included.
pub open spec fn pieces(s: Seq<char>) -> Seq<Seq<char>>
    decreases s.len(),
{
    if s.len() == 0 {
        seq![Seq::empty()]
    } else {
        let p = pieces(s.drop_last());
        if is_white_space(s.last()) {
            p.push(Seq::empty())
        } else {
            p.update(p.len() - 1, p.last().push(s.last()))
        }
    }
}

/// A character kept in a search term: a letter or digit, `_` or `-`.
pub open spec fn term_char(c: char) -> bool {
    is_alphanumeric(c) || c == '_' || c == '-'
}

/// The word with every other character removed.
pub open spec fn clean(w: Seq<char>) -> Seq<char>
    decreases w.len(),
{
    if w.len() == 0 {
        Seq::empty()
    } else if term_char(w.last()) {
        clean(w.drop_last()).push(w.last())
    } else {
        clean(w.drop_last())
    }
}

/// The prefix-match terms of the pieces: each cleaned piece that is not empty,
/// followed by `*`.
pub open spec fn terms_of(ps: Seq<Seq<char>>) -> Seq<Seq<char>>
    decreases ps.len(),
{
    if ps.len() == 0 {
        Seq::empty()
    } else {
        let r = terms_of(ps.drop_last());
        let c = clean(ps.last());
        if c.len() > 0 { r.push(c.push('*')) } else { r }
    }
}

/// The full-text query of user text: every whitespace separated word, reduced to
/// letters, digits, `_` and `-`, becomes a prefix term `word*`; empty words are
/// dropped; terms are separated by one space (all must match).
pub open spec fn fts5_query(text: Seq<char>) -> Seq<char> {
    join(terms_of(pieces(text)), seq![' '])
}

proof fn lemma_pieces_nonempty(s: Seq<char>)
    ensures
        pieces(s).len() > 0,
    decreases s.len(),
{
    if s.len() > 0 {
        lemma_pieces_nonempty(s.drop_last());
    }
}

/// A term of a full-text query: letters, digits, `_` or `-`, at least one, then `*`.
pub open spec fn query_term(t: Seq<char>) -> bool {
    &&& t.len() >= 2
    &&& t.last() == '*'
    &&& forall|i: int| 0 <= i < t.len() - 1 ==> term_char(#[trigger] t[i])
}

/// No white space in `w`.
pub open spec fn no_white(w: Seq<char>) -> bool {
    forall|i: int| 0 <= i < w.len() ==> !is_white_space(#[trigger] w[i])
}

proof fn lemma_clean_chars(w: Seq<char>)
    ensures
        forall|i: int| 0 <= i < clean(w).len() ==> term_char(#[trigger] clean(w)[i]),
        clean(w).len() <= w.len(),
    decreases w.len(),
{
    if w.len() > 0 {
        lemma_clean_chars(w.drop_last());
    }
}

proof fn lemma_clean_keeps(w: Seq<char>)
    requires
        forall|i: int| 0 <= i < w.len() ==> term_char(#[trigger] w[i]),
    ensures
        clean(w) == w,
    decreases w.len(),
{
    if w.len() > 0 {
        assert(term_char(w[w.len() - 1]));
        lemma_clean_keeps(w.drop_last());
        assert(w.drop_last().push(w.last()) =~= w);
    }
}

proof fn lemma_clean_no_white(w: Seq<char>)
    requires
        no_white(w),
    ensures
        no_white(clean(w)),
    decreases w.len(),
{
    if w.len() > 0 {
        let r = w.drop_last();
        assert forall|i: int| 0 <= i < r.len() implies !is_white_space(#[trigger] r[i]) by {
            assert(r[i] == w[i]);
        }
        lemma_clean_no_white(r);
        assert(!is_white_space(w[w.len() - 1]));
    }
}

/// The pieces hold no white space.
proof fn lemma_pieces_no_white(s: Seq<char>)
    ensures
        forall|i: int| 0 <= i < pieces(s).len() ==> no_white(#[trigger] pieces(s)[i]),
    decreases s.len(),
{
    if s.len() > 0 {
        lemma_pieces_no_white(s.drop_last());
        lemma_pieces_nonempty(s.drop_last());
        let p = pieces(s.drop_last());
        if !is_white_space(s.last()) {
            let l = p.last().push(s.last());
            assert(no_white(p[p.len() - 1]));
            assert forall|j: int| 0 <= j < l.len() implies !is_white_space(#[trigger] l[j]) by {
                if j < l.len() - 1 {
                    assert(l[j] == p[p.len() - 1][j]);
                }
            }
            assert forall|i: int| 0 <= i < pieces(s).len() implies no_white(#[trigger] pieces(s)[i]) by {
                if i < p.len() - 1 {
                    assert(pieces(s)[i] == p[i]);
                } else {
                    assert(pieces(s)[i] == l);
                }
            }
        } else {
            assert forall|i: int| 0 <= i < pieces(s).len() implies no_white(#[trigger] pieces(s)[i]) by {
                if i < p.len() {
                    assert(pieces(s)[i] == p[i]);
                } else {
                    assert(pieces(s)[i] =~= Seq::<char>::empty());
                }
            }
        }
    }
}

proof fn lemma_terms_are_terms(ps: Seq<Seq<char>>)
    requires
        forall|i: int| 0 <= i < ps.len() ==> no_white(#[trigger] ps[i]),
    ensures
        forall|i: int| 0 <= i < terms_of(ps).len() ==> query_term(#[trigger] terms_of(ps)[i]) && no_white(terms_of(ps)[i]),
    decreases ps.len(),
{
    if ps.len() > 0 {
        let r = ps.drop_last();
        assert forall|i: int| 0 <= i < r.len() implies no_white(#[trigger] r[i]) by {
            assert(r[i] == ps[i]);
        }
        lemma_terms_are_terms(r);
        let c = clean(ps.last());
        lemma_clean_chars(ps.last());
        assert(no_white(ps[ps.len() - 1]));
        lemma_clean_no_white(ps.last());
        let t = c.push('*');
        assert forall|i: int| 0 <= i < t.len() - 1 implies term_char(#[trigger] t[i]) by {
            assert(t[i] == c[i]);
        }
        assert forall|i: int| 0 <= i < t.len() implies !is_white_space(#[trigger] t[i]) by {
            if i < t.len() - 1 {
                assert(t[i] == c[i]);
            }
        }
        let prev = terms_of(r);
        assert forall|i: int| 0 <= i < terms_of(ps).len() implies query_term(#[trigger] terms_of(ps)[i]) && no_white(terms_of(ps)[i]) by {
            if i < prev.len() {
                assert(terms_of(ps)[i] == prev[i]);
            } else {
                assert(terms_of(ps)[i] == t);
            }
        }
    }
}

/// `pieces` of a text with white-space-free text appended: the last piece grows.
proof fn lemma_pieces_append(x: Seq<char>, y: Seq<char>)
    requires
        no_white(y),
    ensures
        pieces(x + y) == pieces(x).update(pieces(x).len() - 1, pieces(x).last() + y),
    decreases y.len(),
{
    lemma_pieces_nonempty(x);
    if y.len() == 0 {
        assert(x + y =~= x);
        assert(pieces(x).last() + y =~= pieces(x).last());
        assert(pieces(x).update(pieces(x).len() - 1, pieces(x).last()) =~= pieces(x));
    } else {
        let y1 = y.drop_last();
        assert forall|i: int| 0 <= i < y1.len() implies !is_white_space(#[trigger] y1[i]) by {
            assert(y1[i] == y[i]);
        }
        lemma_pieces_append(x, y1);
        assert((x + y).drop_last() =~= x + y1);
        assert((x + y).last() == y.last());
        assert(!is_white_space(y[y.len() - 1]));
        let p = pieces(x);
        assert((p.last() + y1).push(y.last()) =~= p.last() + y);
        assert(pieces(x + y) =~= p.update(p.len() - 1, p.last() + y));
    }
}

/// `pieces` of words joined by single spaces are the words again.
proof fn lemma_pieces_of_join(ws: Seq<Seq<char>>)
    requires
        ws.len() >= 1,
        forall|i: int| 0 <= i < ws.len() ==> no_white(#[trigger] ws[i]),
    ensures
        pieces(join(ws, seq![' '])) == ws,
    decreases ws.len(),
{
    if ws.len() == 1 {
        assert(no_white(ws[0]));
        lemma_pieces_append(Seq::empty(), ws[0]);
        assert(Seq::<char>::empty() + ws[0] =~= ws[0]);
        assert(pieces(Seq::<char>::empty()).update(0, Seq::<char>::empty() + ws[0]) =~= ws);
    } else {
        let rest = ws.drop_last();
        assert forall|i: int| 0 <= i < rest.len() implies no_white(#[trigger] rest[i]) by {
            assert(rest[i] == ws[i]);
        }
        lemma_pieces_of_join(rest);
        let x = join(rest, seq![' ']);
        assert(no_white(ws[ws.len() - 1]));
        lemma_pieces_append(x.push(' '), ws.last());
        assert(x + seq![' '] + ws.last() =~= x.push(' ') + ws.last());
        assert(x.push(' ').drop_last() =~= x);
        assert(is_white_space(' '));
        lemma_pieces_nonempty(x);
        let p = pieces(x.push(' '));
        assert(p == rest.push(Seq::<char>::empty()));
        assert(p.update(p.len() - 1, p.last() + ws.last()) =~= ws);
    }
}

proof fn lemma_terms_fixed(ts: Seq<Seq<char>>)
    requires
        !is_alphanumeric('*'),
        forall|i: int| 0 <= i < ts.len() ==> query_term(#[trigger] ts[i]),
    ensures
        terms_of(ts) == ts,
    decreases ts.len(),
{
    if ts.len() > 0 {
        let rest = ts.drop_last();
        assert forall|i: int| 0 <= i < rest.len() implies query_term(#[trigger] rest[i]) by {
            assert(rest[i] == ts[i]);
        }
        lemma_terms_fixed(rest);
        let t = ts.last();
        assert(query_term(ts[ts.len() - 1]));
        let c = t.drop_last();
        assert forall|i: int| 0 <= i < c.len() implies term_char(#[trigger] c[i]) by {
            assert(c[i] == t[i]);
        }
        lemma_clean_keeps(c);
        assert(!term_char('*'));
        assert(t.drop_last() == c);
        assert(clean(t) == c);
        assert(c.push('*') =~= t);
        assert(ts =~= rest.push(t));
    }
}

/// Turning text into a full-text query twice gives what once gives: a query is
/// its own query. This rests on `*` being no letter or digit, which
/// `char::is_alphanumeric` tells (see `to_fts5`, which asks it).
pub proof fn law_fts5_query_idempotent(text: Seq<char>)
    requires
        !is_alphanumeric('*'),
    ensures
        fts5_query(fts5_query(text)) == fts5_query(text),
{
    let ts = terms_of(pieces(text));
    lemma_pieces_no_white(text);
    lemma_terms_are_terms(pieces(text));
    if ts.len() == 0 {
        assert(fts5_query(text) == Seq::<char>::empty());
        let one = seq![Seq::<char>::empty()];
        assert(pieces(Seq::<char>::empty()) == one);
        assert(one.drop_last() =~= Seq::<Seq<char>>::empty());
        assert(one.last() == Seq::<char>::empty());
        assert(clean(Seq::<char>::empty()) == Seq::<char>::empty());
        assert(terms_of(one.drop_last()) == Seq::<Seq<char>>::empty());
        assert(terms_of(one) == Seq::<Seq<char>>::empty());
    } else {
        assert forall|i: int| 0 <= i < ts.len() implies no_white(#[trigger] ts[i]) by {
            assert(query_term(ts[i]) && no_white(ts[i]));
        }
        lemma_pieces_of_join(ts);
        lemma_terms_fixed(ts);
    }
}

proof fn lemma_join_terms_shape(ws: Seq<Seq<char>>)
    requires
        forall|i: int| 0 <= i < ws.len() ==> query_term(#[trigger] ws[i]),
    ensures
        forall|i: int| 0 <= i < join(ws, seq![' ']).len() ==> {
            let c = #[trigger] join(ws, seq![' '])[i];
            c == ' ' || c == '*' || is_alphanumeric(c) || c == '_' || c == '-'
        },
        !is_alphanumeric('*') ==> forall|i: int| 0 <= i < join(ws, seq![' ']).len() && #[trigger] join(ws, seq![' '])[i] == '*'
            ==> (i + 1 == join(ws, seq![' ']).len() || join(ws, seq![' '])[i + 1] == ' '),
    decreases ws.len(),
{
    let q = join(ws, seq![' ']);
    if ws.len() == 1 {
        let w = ws[0];
        assert(query_term(w));
        assert(q == w);
        assert forall|i: int| 0 <= i < q.len() implies {
            let c = #[trigger] q[i];
            c == ' ' || c == '*' || is_alphanumeric(c) || c == '_' || c == '-'
        } by {
            if i < w.len() - 1 {
                assert(term_char(w[i]));
            }
        }
        if !is_alphanumeric('*') {
            assert forall|i: int| 0 <= i < q.len() && #[trigger] q[i] == '*' implies (i + 1 == q.len() || q[i + 1] == ' ') by {
                if i < w.len() - 1 {
                    assert(term_char(w[i]));
                }
            }
        }
    } else if ws.len() > 1 {
        let rest = ws.drop_last();
        assert forall|i: int| 0 <= i < rest.len() implies query_term(#[trigger] rest[i]) by {
            assert(rest[i] == ws[i]);
        }
        lemma_join_terms_shape(rest);
        let x = join(rest, seq![' ']);
        let w = ws.last();
        assert(query_term(ws[ws.len() - 1]));
        assert(q == x + seq![' '] + w);
        assert forall|i: int| 0 <= i < q.len() implies {
            let c = #[trigger] q[i];
            c == ' ' || c == '*' || is_alphanumeric(c) || c == '_' || c == '-'
        } by {
            if i < x.len() {
                assert(q[i] == x[i]);
            } else if i > x.len() {
                let j = i - x.len() - 1;
                assert(q[i] == w[j]);
                if j < w.len() - 1 {
                    assert(term_char(w[j]));
                }
            }
        }
        if !is_alphanumeric('*') {
            assert forall|i: int| 0 <= i < q.len() && #[trigger] q[i] == '*' implies (i + 1 == q.len() || q[i + 1] == ' ') by {
                if i < x.len() {
                    assert(q[i] == x[i]);
                    if i + 1 < x.len() {
                        assert(q[i + 1] == x[i + 1]);
                    } else {
                        assert(q[i + 1] == ' ');
                    }
                } else if i > x.len() {
                    let j = i - x.len() - 1;
                    assert(q[i] == w[j]);
                    if j < w.len() - 1 {
                        assert(term_char(w[j]));
                    }
                }
            }
        }
    }
}

/// What a full-text query is made of: every character is a space, a `*`, or a
/// letter, digit, `_` or `-` (nothing else of the user's text survives, so the
/// query is plain FTS5 prefix terms); and, as `*` is no letter or digit, every
/// `*` ends a term: it is last or followed by a space.
pub proof fn law_fts5_query_chars(text: Seq<char>)
    ensures
        forall|i: int| 0 <= i < fts5_query(text).len() ==> {
            let c = #[trigger] fts5_query(text)[i];
            c == ' ' || c == '*' || is_alphanumeric(c) || c == '_' || c == '-'
        },
        !is_alphanumeric('*') ==> forall|i: int| 0 <= i < fts5_query(text).len() && #[trigger] fts5_query(text)[i] == '*'
            ==> (i + 1 == fts5_query(text).len() || fts5_query(text)[i + 1] == ' '),
{
    lemma_pieces_no_white(text);
    lemma_terms_are_terms(pieces(text));
    let ts = terms_of(pieces(text));
    assert forall|i: int| 0 <= i < ts.len() implies query_term(#[trigger] ts[i]) by {
        assert(query_term(ts[i]) && no_white(ts[i]));
    }
    lemma_join_terms_shape(ts);
}

proof fn lemma_pieces_cover(s: Seq<char>, i: int)
    requires
        0 <= i < s.len(),
        !is_white_space(s[i]),
    ensures
        exists|j: int| 0 <= j < pieces(s).len() && #[trigger] pieces(s)[j].contains(s[i]),
    decreases s.len(),
{
    let r = s.drop_last();
    lemma_pieces_nonempty(r);
    let p = pieces(r);
    let last = p.len() - 1;
    if i < s.len() - 1 {
        assert(r[i] == s[i]);
        lemma_pieces_cover(r, i);
        let j = choose|j: int| 0 <= j < p.len() && #[trigger] p[j].contains(r[i]);
        let k = choose|k: int| 0 <= k < p[j].len() && p[j][k] == s[i];
        if is_white_space(s.last()) {
            assert(pieces(s)[j] == p[j]);
        } else if j < last {
            assert(pieces(s)[j] == p[j]);
        } else {
            assert(pieces(s)[j] == p[j].push(s.last()));
        }
        assert(pieces(s)[j][k] == s[i]);
        assert(pieces(s)[j].contains(s[i]));
    } else {
        assert(s[i] == s.last());
        let w = p.last().push(s.last());
        assert(pieces(s)[last] == w);
        assert(w[w.len() - 1] == s[i]);
        assert(pieces(s)[last].contains(s[i]));
    }
}

proof fn lemma_clean_keeps_char(w: Seq<char>, c: char)
    requires
        w.contains(c),
        term_char(c),
    ensures
        clean(w).contains(c),
    decreases w.len(),
{
    if w.last() == c {
        assert(clean(w) == clean(w.drop_last()).push(c));
        assert(clean(w)[clean(w).len() - 1] == c);
    } else {
        let k = choose|k: int| 0 <= k < w.len() && w[k] == c;
        assert(w.drop_last()[k] == c);
        lemma_clean_keeps_char(w.drop_last(), c);
        let m = choose|m: int| 0 <= m < clean(w.drop_last()).len() && clean(w.drop_last())[m] == c;
        if term_char(w.last()) {
            assert(clean(w)[m] == c);
        }
    }
}

proof fn lemma_terms_keep_char(ps: Seq<Seq<char>>, j: int, c: char)
    requires
        0 <= j < ps.len(),
        clean(ps[j]).contains(c),
    ensures
        exists|k: int| 0 <= k < terms_of(ps).len() && #[trigger] terms_of(ps)[k].contains(c),
    decreases ps.len(),
{
    let prev = terms_of(ps.drop_last());
    if j < ps.len() - 1 {
        assert(ps.drop_last()[j] == ps[j]);
        lemma_terms_keep_char(ps.drop_last(), j, c);
        let k = choose|k: int| 0 <= k < prev.len() && #[trigger] prev[k].contains(c);
        assert(terms_of(ps)[k] == prev[k]);
        assert(terms_of(ps)[k].contains(c));
    } else {
        let t = clean(ps.last()).push('*');
        assert(ps.last() == ps[j]);
        assert(terms_of(ps) == prev.push(t));
        let m = choose|m: int| 0 <= m < clean(ps[j]).len() && clean(ps[j])[m] == c;
        assert(t[m] == c);
        assert(terms_of(ps)[prev.len() as int] == t);
        assert(terms_of(ps)[prev.len() as int].contains(c));
    }
}

proof fn lemma_join_keeps_char(ws: Seq<Seq<char>>, k: int, c: char, sep: Seq<char>)
    requires
        0 <= k < ws.len(),
        ws[k].contains(c),
    ensures
        join(ws, sep).contains(c),
    decreases ws.len(),
{
    let m = choose|m: int| 0 <= m < ws[k].len() && ws[k][m] == c;
    if ws.len() == 1 {
        assert(join(ws, sep)[m] == c);
    } else {
        let x = join(ws.drop_last(), sep);
        assert(join(ws, sep) == x + sep + ws.last());
        if k < ws.len() - 1 {
            assert(ws.drop_last()[k] == ws[k]);
            lemma_join_keeps_char(ws.drop_last(), k, c, sep);
            let a = choose|a: int| 0 <= a < x.len() && x[a] == c;
            assert(join(ws, sep)[a] == c);
        } else {
            assert(join(ws, sep)[x.len() + sep.len() + m] == c);
        }
    }
}

/// No word of the text is lost: every letter, digit, `_` or `-` of the text that
/// is not white space appears in the full-text query.
pub proof fn law_fts5_query_keeps_words(text: Seq<char>)
    ensures
        forall|i: int| 0 <= i < text.len() && (is_alphanumeric(#[trigger] text[i]) || text[i] == '_' || text[i] == '-')
            && !is_white_space(text[i]) ==> fts5_query(text).contains(text[i]),
{
    assert forall|i: int| 0 <= i < text.len() && (is_alphanumeric(#[trigger] text[i]) || text[i] == '_' || text[i] == '-')
        && !is_white_space(text[i]) implies fts5_query(text).contains(text[i]) by {
        let c = text[i];
        lemma_pieces_cover(text, i);
        let ps = pieces(text);
        let j = choose|j: int| 0 <= j < ps.len() && #[trigger] ps[j].contains(c);
        lemma_clean_keeps_char(ps[j], c);
        lemma_terms_keep_char(ps, j, c);
        let ts = terms_of(ps);
        let k = choose|k: int| 0 <= k < ts.len() && #[trigger] ts[k].contains(c);
        lemma_join_keeps_char(ts, k, c, seq![' ']);
    }
}

/// Converts user text to a prefix-match full-text query; converting the query
/// again gives the query itself.
pub fn to_fts5(text: &str) -> (q: String)
    ensures
        q@ == fts5_query(text@),
        fts5_query(q@) == q@,
        forall|i: int| 0 <= i < q@.len() ==> {
            let c = #[trigger] q@[i];
            c == ' ' || c == '*' || is_alphanumeric(c) || c == '_' || c == '-'
        },
        forall|i: int| 0 <= i < q@.len() && #[trigger] q@[i] == '*' ==> (i + 1 == q@.len() || q@[i + 1] == ' '),
        forall|i: int| 0 <= i < text@.len() && (is_alphanumeric(#[trigger] text@[i]) || text@[i] == '_' || text@[i] == '-')
            && !is_white_space(text@[i]) ==> q@.contains(text@[i]),
{
    let star_is_term = char_is_alphanumeric('*');
    proof {
        assert(('*' as u32) < 128);
        assert(!star_is_term);
        law_fts5_query_idempotent(text@);
        law_fts5_query_chars(text@);
        law_fts5_query_keeps_words(text@);
    }
    let cs = chars_of(text);
    let mut terms: Vec<String> = Vec::new();
    let mut cur: Vec<char> = Vec::new();
    assert(text@.take(0) =~= Seq::<char>::empty());
    for i in 0..cs.len()
        invariant
            cs@ == text@,
            pieces(text@.take(i as int)).len() > 0,
            string_views(terms@) == terms_of(pieces(text@.take(i as int)).drop_last()),
            cur@ == clean(pieces(text@.take(i as int)).last()),
    {
        let c = cs[i];
        let ghost p = pieces(text@.take(i as int));
        assert(text@.take(i + 1).drop_last() =~= text@.take(i as int));
        assert(text@.take(i + 1).last() == c);
        if char_is_whitespace(c) {
            assert(pieces(text@.take(i + 1)) == p.push(Seq::<char>::empty()));
            assert(p.push(Seq::<char>::empty()).drop_last() =~= p);
            assert(p =~= p.drop_last().push(p.last()));
            if cur.len() > 0 {
                let mut term = string_of(&cur);
                push_char(&mut term, '*');
                let ghost before = terms@;
                terms.push(term);
                assert(string_views(terms@) =~= string_views(before).push(cur@.push('*')));
            }
            cur = Vec::new();
            assert(cur@ =~= clean(Seq::<char>::empty()));
        } else {
            let ghost np = p.update(p.len() - 1, p.last().push(c));
            assert(pieces(text@.take(i + 1)) == np);
            assert(np.drop_last() =~= p.drop_last());
            assert(np.last() == p.last().push(c));
            assert(p.last().push(c).drop_last() =~= p.last());
            if char_is_alphanumeric(c) || c == '_' || c == '-' {
                cur.push(c);
            }
        }
    }
    let ghost p = pieces(text@);
    assert(text@.take(cs@.len() as int) =~= text@);
    assert(p =~= p.drop_last().push(p.last()));
    if cur.len() > 0 {
        let mut term = string_of(&cur);
        push_char(&mut term, '*');
        let ghost before = terms@;
        terms.push(term);
        assert(string_views(terms@) =~= string_views(before).push(cur@.push('*')));
    }
    assert(string_views(terms@) == terms_of(p));
    proof {
        reveal_strlit(" ");
        assert(" "@ =~= seq![' ']);
    }
    join_strings(&terms, " ")
}

/// The subquery that gathers the tags of the file whose id is `id_ref`, as a JSON
/// array of `{id, name, color}` objects (`[]` when it has none).
pub open spec fn tags_subquery(id_ref: Seq<char>) -> Seq<char> {
    "COALESCE((SELECT json_group_array(json_object('id',t.id,'name',t.name,'color',t.color)) FROM file_tags ft JOIN tags t ON ft.tag_id=t.id WHERE ft.file_id="@
        + id_ref + "),'[]')"@
}

/// Appends the tag subquery for the file id column `id_ref`.
fn push_tags_subquery(s: &mut String, id_ref: &str)
    ensures
        final(s)@ == old(s)@ + tags_subquery(id_ref@),
{
    s.append("COALESCE((SELECT json_group_array(json_object('id',t.id,'name',t.name,'color',t.color)) FROM file_tags ft JOIN tags t ON ft.tag_id=t.id WHERE ft.file_id=");
    s.append(id_ref);
    s.append("),'[]')");
    assert(final(s)@ =~= old(s)@ + tags_subquery(id_ref@));
}

/// The tag subquery for the file id column `id_ref`.
pub fn tags_subq(id_ref: &str) -> (q: String)
    ensures
        q@ == tags_subquery(id_ref@),
{
    let mut q = String::new();
    push_tags_subquery(&mut q, id_ref);
    assert(Seq::<char>::empty() + tags_subquery(id_ref@) =~= tags_subquery(id_ref@));
    q
}

/// `n` placeholders separated by `sep`.
pub open spec fn placeholders(n: nat, sep: Seq<char>) -> Seq<char> {
    join(Seq::new(n, |i: int| "?"@), sep)
}

/// Appends `n` placeholders separated by `sep`.
pub(crate) fn push_placeholders(s: &mut String, n: usize, sep: &str)
    ensures
        final(s)@ == old(s)@ + placeholders(n as nat, sep@),
{
    for i in 0..n
        invariant
            s@ == old(s)@ + join(Seq::new(i as nat, |j: int| "?"@), sep@),
    {
        let ghost before = s@;
        if i > 0 {
            s.append(sep);
        }
        s.append("?");
        assert(Seq::new((i + 1) as nat, |j: int| "?"@).drop_last() =~= Seq::new(i as nat, |j: int| "?"@));
        if i == 0 {
            assert(join(Seq::new(1, |j: int| "?"@), sep@) == "?"@);
            assert(s@ =~= old(s)@ + join(Seq::new(1, |j: int| "?"@), sep@));
        } else {
            assert(s@ =~= old(s)@ + join(Seq::new((i + 1) as nat, |j: int| "?"@), sep@));
        }
    }
}

/// The number of results asked for, or `default`, at most `max`.
pub open spec fn page_size(limit: Option<i64>, default: i64, max: i64) -> i64 {
    let l = match limit { Some(x) => x, None => default };
    if l < max { l } else { max }
}

/// The number of results asked for, or `default`, at most `max`.
pub fn page_limit(limit: Option<i64>, default: i64, max: i64) -> (l: i64)
    ensures
        l == page_size(limit, default, max),
{
    let l = match limit {
        Some(x) => x,
        None => default,
    };
    if l < max { l } else { max }
}

/// The ids in order of first appearance, each once.
pub open spec fn distinct_ids(s: Seq<i64>) -> Seq<i64>
    decreases s.len(),
{
    if s.len() == 0 {
        Seq::empty()
    } else {
        let prev = distinct_ids(s.drop_last());
        if prev.contains(s.last()) {
            prev
        } else {
            prev.push(s.last())
        }
    }
}

/// The tags the request filters by, each once: a tag named twice asks for no
/// more than a tag named once.
pub open spec fn query_tag_ids(q: SearchQuery) -> Seq<i64> {
    match q.tag_ids {
        Some(v) => distinct_ids(v@),
        None => Seq::empty(),
    }
}

/// Every id of `s` is kept by `distinct_ids`, and nothing else.
proof fn lemma_distinct_ids_contains(s: Seq<i64>, x: i64)
    ensures
        distinct_ids(s).contains(x) == s.contains(x),
    decreases s.len(),
{
    if s.len() > 0 {
        lemma_distinct_ids_contains(s.drop_last(), x);
        if s.drop_last().contains(x) {
            let i = choose|i: int| 0 <= i < s.drop_last().len() && s.drop_last()[i] == x;
            assert(s[i] == x);
        }
        if s.contains(x) && s.last() != x {
            let i = choose|i: int| 0 <= i < s.len() && s[i] == x;
            assert(s.drop_last()[i] == x);
        }
        if s.last() == x {
            assert(s[s.len() - 1] == x);
            let prev = distinct_ids(s.drop_last());
            if !prev.contains(x) {
                assert(prev.push(x)[prev.len() as int] == x);
            }
        } else {
            let prev = distinct_ids(s.drop_last());
            if !prev.contains(s.last()) && prev.push(s.last()).contains(x) {
                let i = choose|i: int| 0 <= i < prev.push(s.last()).len() && prev.push(s.last())[i] == x;
                assert(prev[i] == x);
            }
            if prev.contains(x) {
                let i = choose|i: int| 0 <= i < prev.len() && prev[i] == x;
                assert(prev.push(s.last())[i] == x);
            }
        }
    }
}

/// Naming a tag again that a request already names changes neither its
/// statement nor its parameters.
pub proof fn law_repeated_tag_asks_nothing_more(q: SearchQuery, again: SearchQuery, t: i64)
    requires
        q.tag_ids is Some,
        again.tag_ids is Some,
        q.tag_ids.unwrap()@.contains(t),
        again.tag_ids.unwrap()@ == q.tag_ids.unwrap()@.push(t),
        again.text == q.text,
        again.tag_logic == q.tag_logic,
        again.task_id == q.task_id,
        again.limit == q.limit,
        again.offset == q.offset,
    ensures
        search_sql(again) == search_sql(q),
        search_params(again) == search_params(q),
{
    let s = q.tag_ids.unwrap()@;
    assert(again.tag_ids.unwrap()@.drop_last() =~= s);
    lemma_distinct_ids_contains(s, t);
    assert(query_tag_ids(again) == query_tag_ids(q));
}

/// Whether `x` occurs in `v`.
fn holds_id(v: &Vec<i64>, x: i64) -> (b: bool)
    ensures
        b == v@.contains(x),
{
    for k in 0..v.len()
        invariant
            forall|j: int| 0 <= j < k ==> v@[j] != x,
    {
        if v[k] == x {
            assert(v@[k as int] == x);
            return true;
        }
    }
    false
}

/// The ids in order of first appearance, each once.
pub fn distinct_tag_ids(ids: &Vec<i64>) -> (r: Vec<i64>)
    ensures
        r@ == distinct_ids(ids@),
{
    let mut r: Vec<i64> = Vec::new();
    for k in 0..ids.len()
        invariant
            r@ == distinct_ids(ids@.take(k as int)),
    {
        assert(ids@.take(k + 1).drop_last() =~= ids@.take(k as int));
        assert(ids@.take(k + 1).last() == ids@[k as int]);
        if !holds_id(&r, ids[k]) {
            r.push(ids[k]);
        }
    }
    assert(ids@.take(ids@.len() as int) =~= ids@);
    r
}

/// The full-text query of the request's text, when it yields any term.
pub open spec fn query_fts(q: SearchQuery) -> Option<Seq<char>> {
    match q.text {
        Some(t) => {
            let tt = trim_white(t@);
            if tt.len() > 0 && fts5_query(tt).len() > 0 { Some(fts5_query(tt)) } else { None }
        },
        None => None,
    }
}

/// `s` without its leading white space.
pub open spec fn trim_white_start(s: Seq<char>) -> Seq<char>
    decreases s.len(),
{
    if s.len() > 0 && is_white_space(s[0]) { trim_white_start(s.drop_first()) } else { s }
}

/// `s` without its trailing white space.
pub open spec fn trim_white_end(s: Seq<char>) -> Seq<char>
    decreases s.len(),
{
    if s.len() > 0 && is_white_space(s.last()) { trim_white_end(s.drop_last()) } else { s }
}

/// `s` without leading and trailing white space (`str::trim`).
pub open spec fn trim_white(s: Seq<char>) -> Seq<char> {
    trim_white_end(trim_white_start(s))
}

/// `s` without leading and trailing white space.
pub fn trim(s: &str) -> (r: String)
    ensures
        r@ == trim_white(s@),
{
    let cs = chars_of(s);
    let mut a: usize = 0;
    assert(s@.skip(0) =~= s@);
    while a < cs.len() && char_is_whitespace(cs[a])
        invariant
            cs@ == s@,
            a <= cs@.len(),
            trim_white_start(s@) == trim_white_start(s@.skip(a as int)),
        decreases cs@.len() - a,
    {
        assert(s@.skip(a as int).drop_first() =~= s@.skip(a + 1));
        a = a + 1;
    }
    let ghost st = s@.skip(a as int);
    assert(trim_white_start(s@) == st);
    let mut b: usize = cs.len();
    assert(st.take(st.len() as int) =~= st);
    while b > a && char_is_whitespace(cs[b - 1])
        invariant
            cs@ == s@,
            a <= b <= cs@.len(),
            st == s@.skip(a as int),
            trim_white(s@) == trim_white_end(st.take(b - a)),
        decreases b,
    {
        assert(st.take(b - a).drop_last() =~= st.take(b - a - 1));
        assert(st.take(b - a).last() == cs@[b - 1]);
        b = b - 1;
    }
    let mut r = String::new();
    for i in a..b
        invariant
            cs@ == s@,
            a <= b <= cs@.len(),
            r@ == s@.subrange(a as int, i as int),
    {
        push_char(&mut r, cs[i]);
        assert(s@.subrange(a as int, i + 1) =~= s@.subrange(a as int, i as int).push(cs@[i as int]));
    }
    assert(st.take(b - a) =~= s@.subrange(a as int, b as int));
    assert(b > a ==> !is_white_space(st.take(b - a).last()));
    r
}

pub open spec fn query_tag_and(q: SearchQuery) -> bool {
    q.tag_logic matches Some(l) && l@ == "and"@
}

/// The start of the statement. With tags, each given tag is expanded to its whole
/// subtree and a file qualifies by holding some tag of a subtree; in "and" mode it
/// must do so for every given tag (the count of distinct tags given).
pub open spec fn search_head(q: SearchQuery) -> Seq<char> {
    search_head_of(query_tag_ids(q), query_tag_and(q))
}

pub open spec fn search_head_of(ids: Seq<i64>, tag_and: bool) -> Seq<char> {
    if ids.len() > 0 {
        "WITH RECURSIVE tag_tree(id, root_id) AS (SELECT id, id FROM tags WHERE id IN ("@
            + placeholders(ids.len(), ", "@)
            + ") UNION ALL SELECT t.id, tt.root_id FROM tags t JOIN tag_tree tt ON t.parent_id = tt.id ), tag_match(file_id) AS (SELECT ft.file_id FROM file_tags ft JOIN tag_tree tt ON ft.tag_id = tt.id GROUP BY ft.file_id"@
            + (if tag_and { " HAVING COUNT(DISTINCT tt.root_id) = "@ + decimal(ids.len()) } else { Seq::empty() })
            + " ) SELECT fr.id, fr.task_id, fr.relative_path, fr.size, fr.mtime, fr.content_hash, fr.status, fr.last_synced_at, fr.kind, "@
            + tags_subquery("fr.id"@)
            + " FROM file_records fr JOIN tag_match tm ON fr.id = tm.file_id WHERE fr.status = 'active'"@
    } else {
        "SELECT id, task_id, relative_path, size, mtime, content_hash, status, last_synced_at, kind, "@
            + tags_subquery("file_records.id"@)
            + " FROM file_records WHERE status = 'active'"@
    }
}

/// The filters, order and page that follow the head; column names take the `fr.`
/// prefix when the head joins tag matches.
pub open spec fn search_tail_of(use_tags: bool, has_text: bool, has_task: bool) -> Seq<char> {
    let prefix = if use_tags { "fr."@ } else { Seq::empty() };
    (if has_text {
        " AND "@ + prefix + "id IN (SELECT rowid FROM file_search_index WHERE file_search_index MATCH ?)"@
    } else {
        Seq::empty()
    })
        + (if has_task { " AND "@ + prefix + "task_id = ?"@ } else { Seq::empty() })
        + " ORDER BY "@ + prefix + "relative_path LIMIT ? OFFSET ?"@
}

/// The full search statement: the head, then the text filter, the task filter,
/// the order by path and the page.
pub open spec fn search_sql(q: SearchQuery) -> Seq<char> {
    search_head(q) + search_tail_of(query_tag_ids(q).len() > 0, query_fts(q) is Some, q.task_id is Some)
}

/// A parameter with its text taken by its characters.
pub enum ParamView {
    Integer(i64),
    Text(Seq<char>),
}

pub open spec fn param_view(p: SqlParam) -> ParamView {
    match p {
        SqlParam::Integer(i) => ParamView::Integer(i),
        SqlParam::Text(t) => ParamView::Text(t@),
    }
}

pub open spec fn param_views(ps: Seq<SqlParam>) -> Seq<ParamView> {
    ps.map_values(|p: SqlParam| param_view(p))
}

/// The values of the placeholders in order: the tag ids, the text query, the task
/// id, then the page size (default 100, at most 500) and the offset (default 0).
pub open spec fn search_params(q: SearchQuery) -> Seq<ParamView> {
    query_tag_ids(q).map_values(|i: i64| ParamView::Integer(i))
        + tail_params(query_fts(q), q.task_id, page_size(q.limit, 100, 500), match q.offset { Some(o) => o, None => 0 })
}

pub open spec fn tail_params(fts: Option<Seq<char>>, task: Option<i64>, limit: i64, offset: i64) -> Seq<ParamView> {
    (match fts { Some(f) => seq![ParamView::Text(f)], None => Seq::empty() })
        + (match task { Some(t) => seq![ParamView::Integer(t)], None => Seq::empty() })
        + seq![ParamView::Integer(limit), ParamView::Integer(offset)]
}

/// The filter by task: ` AND task_id = ?`, or ` AND fr.task_id = ?` when the
/// statement joins tag matches.
pub open spec fn task_filter_text(use_tags: bool) -> Seq<char> {
    " AND "@ + (if use_tags { "fr."@ } else { Seq::<char>::empty() }) + "task_id = ?"@
}

/// The task filter text for a request.
pub open spec fn task_filter_of(q: SearchQuery) -> Seq<char> {
    task_filter_text(query_tag_ids(q).len() > 0)
}

/// The task filter is never dropped: whenever the request names a task, the
/// statement holds the filter ` AND task_id = ?` (`fr.task_id` when tags are
/// given), and the task id is bound right after the tag ids and the text query,
/// whether or not tags are given.
pub proof fn law_task_filter_kept(q: SearchQuery, t: i64)
    requires
        q.task_id == Some(t),
    ensures
        exists|i: int| #[trigger] occurs_at(search_sql(q), task_filter_of(q), i),
        search_params(q)[query_tag_ids(q).len() + (if query_fts(q) is Some { 1int } else { 0int })]
            == ParamView::Integer(t),
{
    let use_tags = query_tag_ids(q).len() > 0;
    let prefix = if use_tags { "fr."@ } else { Seq::<char>::empty() };
    let has_text = query_fts(q) is Some;
    let text_part = if has_text {
        " AND "@ + prefix + "id IN (SELECT rowid FROM file_search_index WHERE file_search_index MATCH ?)"@
    } else {
        Seq::empty()
    };
    let filter = " AND "@ + prefix + "task_id = ?"@;
    let head = search_head(q);
    let rest = " ORDER BY "@ + prefix + "relative_path LIMIT ? OFFSET ?"@;
    assert(search_tail_of(use_tags, has_text, true) =~= text_part + filter + rest);
    let sql = search_sql(q);
    assert(sql =~= head + text_part + filter + rest);
    let i = (head.len() + text_part.len()) as int;
    assert(sql.subrange(i, i + filter.len()) =~= filter);
    assert(filter == task_filter_of(q));
    assert(occurs_at(sql, filter, i));
    let ids = query_tag_ids(q).map_values(|x: i64| ParamView::Integer(x));
    let fts = match query_fts(q) { Some(f) => seq![ParamView::Text(f)], None => Seq::<ParamView>::empty() };
    let tp = tail_params(query_fts(q), q.task_id, page_size(q.limit, 100, 500), match q.offset { Some(o) => o, None => 0 });
    assert(tp =~= fts + seq![ParamView::Integer(t)] + seq![
        ParamView::Integer(page_size(q.limit, 100, 500)),
        ParamView::Integer(match q.offset { Some(o) => o, None => 0 }),
    ]);
    let k = (ids.len() + fts.len()) as int;
    assert(search_params(q)[k] == ParamView::Integer(t));
}

/// The text filter: ` AND id IN (..MATCH ?)`, with the `fr.` prefix when the
/// statement joins tag matches.
pub open spec fn text_filter_of(q: SearchQuery) -> Seq<char> {
    " AND "@ + (if query_tag_ids(q).len() > 0 { "fr."@ } else { Seq::<char>::empty() })
        + "id IN (SELECT rowid FROM file_search_index WHERE file_search_index MATCH ?)"@
}

/// The "and" condition: a file must match as many distinct given tags as there are.
pub open spec fn all_tags_condition(q: SearchQuery) -> Seq<char> {
    " HAVING COUNT(DISTINCT tt.root_id) = "@ + decimal(query_tag_ids(q).len())
}

proof fn lemma_distinct_ids_unique(s: Seq<i64>)
    ensures
        distinct_ids(s).no_duplicates(),
    decreases s.len(),
{
    if s.len() > 0 {
        lemma_distinct_ids_unique(s.drop_last());
        let prev = distinct_ids(s.drop_last());
        if !prev.contains(s.last()) {
            let cur = prev.push(s.last());
            assert forall|a: int, b: int| 0 <= a < cur.len() && 0 <= b < cur.len() && a != b implies cur[a] != cur[b] by {
                if a < prev.len() && b < prev.len() {
                } else if a < prev.len() {
                    assert(prev[a] == cur[a]);
                } else {
                    assert(prev[b] == cur[b]);
                }
            }
        }
    }
}

/// The tags a request filters by are the given tags, each once: no tag is lost
/// and none repeats.
pub proof fn law_tag_ids_each_once(q: SearchQuery)
    ensures
        query_tag_ids(q).no_duplicates(),
        forall|x: i64| #[trigger] query_tag_ids(q).contains(x) <==> (q.tag_ids matches Some(v) && v@.contains(x)),
{
    if let Some(v) = q.tag_ids {
        lemma_distinct_ids_unique(v@);
        assert forall|x: i64| #[trigger] query_tag_ids(q).contains(x) <==> v@.contains(x) by {
            lemma_distinct_ids_contains(v@, x);
        }
    }
}

/// The values a search binds, in order: each tag once, the text query when there
/// is one, the task when one is named, then the page size (100 unless given, at
/// most 500) and the offset (0 unless given). The statement holds the text filter
/// whenever there is a text query, and in "and" mode with tags the condition that
/// a file match as many distinct tags as were given.
pub proof fn law_search_binds(q: SearchQuery)
    ensures
        ({
            let ps = search_params(q);
            let n = query_tag_ids(q).len() as int;
            let f = if query_fts(q) is Some { 1int } else { 0int };
            let t = if q.task_id is Some { 1int } else { 0int };
            &&& ps.len() == n + f + t + 2
            &&& forall|i: int| 0 <= i < n ==> #[trigger] ps[i] == ParamView::Integer(query_tag_ids(q)[i])
            &&& query_fts(q) matches Some(x) ==> ps[n] == ParamView::Text(x)
            &&& ps[ps.len() - 2] == ParamView::Integer(match q.limit {
                Some(l) => if l < 500 { l } else { 500 },
                None => 100,
            })
            &&& ps[ps.len() - 1] == ParamView::Integer(match q.offset {
                Some(o) => o,
                None => 0,
            })
        }),
        query_fts(q) is Some ==> exists|i: int| #[trigger] occurs_at(search_sql(q), text_filter_of(q), i),
        (query_tag_and(q) && query_tag_ids(q).len() > 0) ==> exists|i: int| #[trigger] occurs_at(search_sql(q), all_tags_condition(q), i),
{
    let use_tags = query_tag_ids(q).len() > 0;
    let prefix = if use_tags { "fr."@ } else { Seq::<char>::empty() };
    let ids = query_tag_ids(q).map_values(|x: i64| ParamView::Integer(x));
    let fts = match query_fts(q) { Some(f) => seq![ParamView::Text(f)], None => Seq::<ParamView>::empty() };
    let task = match q.task_id { Some(t) => seq![ParamView::Integer(t)], None => Seq::<ParamView>::empty() };
    let lim = page_size(q.limit, 100, 500);
    let off = match q.offset { Some(o) => o, None => 0 };
    let tp = tail_params(query_fts(q), q.task_id, lim, off);
    assert(tp =~= fts + task + seq![ParamView::Integer(lim), ParamView::Integer(off)]);
    let ps = search_params(q);
    assert(ps =~= ids + fts + task + seq![ParamView::Integer(lim), ParamView::Integer(off)]);
    assert forall|i: int| 0 <= i < ids.len() implies #[trigger] ps[i] == ParamView::Integer(query_tag_ids(q)[i]) by {
        assert(ps[i] == ids[i]);
    }
    if let Some(x) = query_fts(q) {
        assert(ps[ids.len() as int] == ParamView::Text(x));
        let text_part = " AND "@ + prefix + "id IN (SELECT rowid FROM file_search_index WHERE file_search_index MATCH ?)"@;
        let head = search_head(q);
        let rest_part = (if q.task_id is Some { " AND "@ + prefix + "task_id = ?"@ } else { Seq::empty() })
            + " ORDER BY "@ + prefix + "relative_path LIMIT ? OFFSET ?"@;
        assert(search_tail_of(use_tags, true, q.task_id is Some) =~= text_part + rest_part);
        let sql = search_sql(q);
        assert(sql =~= head + text_part + rest_part);
        let i = head.len() as int;
        assert(sql.subrange(i, i + text_part.len()) =~= text_part);
        assert(text_part == text_filter_of(q));
        assert(occurs_at(sql, text_filter_of(q), i));
    }
    if query_tag_and(q) && use_tags {
        let ids_v = query_tag_ids(q);
        let a = "WITH RECURSIVE tag_tree(id, root_id) AS (SELECT id, id FROM tags WHERE id IN ("@
            + placeholders(ids_v.len(), ", "@)
            + ") UNION ALL SELECT t.id, tt.root_id FROM tags t JOIN tag_tree tt ON t.parent_id = tt.id ), tag_match(file_id) AS (SELECT ft.file_id FROM file_tags ft JOIN tag_tree tt ON ft.tag_id = tt.id GROUP BY ft.file_id"@;
        let cond = all_tags_condition(q);
        let b = " ) SELECT fr.id, fr.task_id, fr.relative_path, fr.size, fr.mtime, fr.content_hash, fr.status, fr.last_synced_at, fr.kind, "@
            + tags_subquery("fr.id"@)
            + " FROM file_records fr JOIN tag_match tm ON fr.id = tm.file_id WHERE fr.status = 'active'"@;
        assert(search_head(q) =~= a + cond + b);
        let sql = search_sql(q);
        let tail = search_tail_of(use_tags, query_fts(q) is Some, q.task_id is Some);
        assert(sql =~= a + cond + (b + tail));
        let i = a.len() as int;
        assert(sql.subrange(i, i + cond.len()) =~= cond);
        assert(occurs_at(sql, cond, i));
    }
}

fn push_search_head(sql: &mut String, tag_ids: &Vec<i64>, tag_and: bool)
    ensures
        final(sql)@ == old(sql)@ + search_head_of(tag_ids@, tag_and),
{
    if tag_ids.len() > 0 {
        sql.append("WITH RECURSIVE tag_tree(id, root_id) AS (SELECT id, id FROM tags WHERE id IN (");
        push_placeholders(sql, tag_ids.len(), ", ");
        sql.append(") UNION ALL SELECT t.id, tt.root_id FROM tags t JOIN tag_tree tt ON t.parent_id = tt.id ), tag_match(file_id) AS (SELECT ft.file_id FROM file_tags ft JOIN tag_tree tt ON ft.tag_id = tt.id GROUP BY ft.file_id");
        let ghost mid = sql@;
        if tag_and {
            sql.append(" HAVING COUNT(DISTINCT tt.root_id) = ");
            push_decimal(sql, tag_ids.len() as u64);
        }
        let ghost having = if tag_and { " HAVING COUNT(DISTINCT tt.root_id) = "@ + decimal(tag_ids@.len()) } else { Seq::<char>::empty() };
        assert(sql@ =~= mid + having);
        sql.append(" ) SELECT fr.id, fr.task_id, fr.relative_path, fr.size, fr.mtime, fr.content_hash, fr.status, fr.last_synced_at, fr.kind, ");
        push_tags_subquery(sql, "fr.id");
        sql.append(" FROM file_records fr JOIN tag_match tm ON fr.id = tm.file_id WHERE fr.status = 'active'");
    } else {
        sql.append("SELECT id, task_id, relative_path, size, mtime, content_hash, status, last_synced_at, kind, ");
        push_tags_subquery(sql, "file_records.id");
        sql.append(" FROM file_records WHERE status = 'active'");
    }
    assert(final(sql)@ =~= old(sql)@ + search_head_of(tag_ids@, tag_and));
}

pub(crate) fn integer_params(ids: &Vec<i64>) -> (params: Vec<SqlParam>)
    ensures
        param_views(params@) == ids@.map_values(|i: i64| ParamView::Integer(i)),
{
    let mut params: Vec<SqlParam> = Vec::new();
    for k in 0..ids.len()
        invariant
            param_views(params@) == ids@.take(k as int).map_values(|i: i64| ParamView::Integer(i)),
    {
        let ghost before = params@;
        params.push(SqlParam::Integer(ids[k]));
        assert(param_views(params@) =~= param_views(before).push(ParamView::Integer(ids@[k as int])));
        assert(ids@.take(k + 1).map_values(|i: i64| ParamView::Integer(i)) =~= ids@.take(k as int).map_values(|i: i64| ParamView::Integer(i)).push(ParamView::Integer(ids@[k as int])));
    }
    assert(ids@.take(ids@.len() as int) =~= ids@);
    params
}

fn push_search_tail(
    sql: &mut String,
    params: &mut Vec<SqlParam>,
    use_tags: bool,
    fts: Option<String>,
    task: Option<i64>,
    limit: i64,
    offset: i64,
)
    ensures
        final(sql)@ == old(sql)@ + search_tail_of(use_tags, fts is Some, task is Some),
        param_views(final(params)@) == param_views(old(params)@) + tail_params(
            match fts { Some(f) => Some(f@), None => None },
            task,
            limit,
            offset,
        ),
{
    let prefix = if use_tags { "fr." } else { "" };
    proof {
        reveal_strlit("");
    }
    let ghost fv = match fts { Some(ref f) => Some(f@), None => None };
    match fts {
        Some(f) => {
            params.push(SqlParam::Text(f));
            sql.append(" AND ");
            sql.append(prefix);
            sql.append("id IN (SELECT rowid FROM file_search_index WHERE file_search_index MATCH ?)");
        },
        None => {},
    }
    match task {
        Some(tid) => {
            params.push(SqlParam::Integer(tid));
            sql.append(" AND ");
            sql.append(prefix);
            sql.append("task_id = ?");
        },
        None => {},
    }
    sql.append(" ORDER BY ");
    sql.append(prefix);
    sql.append("relative_path LIMIT ? OFFSET ?");
    params.push(SqlParam::Integer(limit));
    params.push(SqlParam::Integer(offset));
    assert(final(sql)@ =~= old(sql)@ + search_tail_of(use_tags, fv is Some, task is Some));
    assert(param_views(final(params)@) =~= param_views(old(params)@) + tail_params(fv, task, limit, offset));
}

/// The full-text query of the request's text, when it yields any term.
fn query_fts_text(q: &SearchQuery) -> (f: Option<String>)
    ensures
        match f { Some(x) => Some(x@), None => None } == query_fts(*q),
{
    match &q.text {
        Some(t) => {
            let tt = trim(t.as_str());
            if tt.as_str().unicode_len() == 0 {
                return None;
            }
            let f = to_fts5(tt.as_str());
            if f.as_str().unicode_len() > 0 { Some(f) } else { None }
        },
        None => None,
    }
}

/// Builds the search statement for a request.
pub fn search_statement(q: &SearchQuery) -> (st: Statement)
    ensures
        st.sql@ == search_sql(*q),
        param_views(st.params@) == search_params(*q),
        q.task_id is Some ==> exists|i: int| #[trigger] occurs_at(search_sql(*q), task_filter_of(*q), i),
        q.task_id matches Some(t) ==> param_views(st.params@)[query_tag_ids(*q).len() + (if query_fts(*q) is Some { 1int } else { 0int })]
            == ParamView::Integer(t),
{
    let limit = page_limit(q.limit, 100, 500);
    let offset = match q.offset {
        Some(o) => o,
        None => 0,
    };
    let empty: Vec<i64> = Vec::new();
    let given: &Vec<i64> = match &q.tag_ids {
        Some(v) => v,
        None => &empty,
    };
    let distinct = distinct_tag_ids(given);
    let tag_ids = &distinct;
    let tag_and = match &q.tag_logic {
        Some(l) => str_eq(l.as_str(), "and"),
        None => false,
    };
    assert(tag_ids@ == query_tag_ids(*q));
    let fts = query_fts_text(q);
    let mut sql = String::new();
    push_search_head(&mut sql, tag_ids, tag_and);
    let mut params = integer_params(tag_ids);
    push_search_tail(&mut sql, &mut params, tag_ids.len() > 0, fts, q.task_id, limit, offset);
    assert(sql@ =~= search_sql(*q));
    assert(param_views(params@) =~= search_params(*q));
    proof {
        if q.task_id is Some {
            law_task_filter_kept(*q, q.task_id.unwrap());
        }
    }
    Statement { sql, params }
}

/// A file id with its relative path, as the file index or the full-text index
/// holds it.
#[derive(Clone, Debug, PartialEq, Eq)]
pub struct IndexedRow {
    pub id: i64,
    pub relative_path: String,
}

/// Some row of `rows` has this id and path.
pub open spec fn has_row(rows: Seq<IndexedRow>, id: i64, path: Seq<char>) -> bool {
    exists|i: int| 0 <= i < rows.len() && #[trigger] rows[i].id == id && rows[i].relative_path@ == path
}

/// The ids of the rows of `a`, in order, that `b` lacks (same id and path).
pub open spec fn unmatched_ids(a: Seq<IndexedRow>, b: Seq<IndexedRow>) -> Seq<i64>
    decreases a.len(),
{
    if a.len() == 0 {
        Seq::empty()
    } else {
        let prev = unmatched_ids(a.drop_last(), b);
        if has_row(b, a.last().id, a.last().relative_path@) { prev } else { prev.push(a.last().id) }
    }
}

fn holds_row(rows: &Vec<IndexedRow>, id: i64, path: &String) -> (b: bool)
    ensures
        b == has_row(rows@, id, path@),
{
    for i in 0..rows.len()
        invariant
            forall|j: int| 0 <= j < i ==> !(#[trigger] rows@[j].id == id && rows@[j].relative_path@ == path@),
    {
        if rows[i].id == id && str_eq(rows[i].relative_path.as_str(), path.as_str()) {
            assert(rows@[i as int].id == id && rows@[i as int].relative_path@ == path@);
            return true;
        }
    }
    false
}

/// The ids of the rows of `a`, in order, that `b` lacks (same id and path).
fn unmatched(a: &Vec<IndexedRow>, b: &Vec<IndexedRow>) -> (r: Vec<i64>)
    ensures
        r@ == unmatched_ids(a@, b@),
{
    let mut r: Vec<i64> = Vec::new();
    for i in 0..a.len()
        invariant
            r@ == unmatched_ids(a@.take(i as int), b@),
    {
        assert(a@.take(i + 1).drop_last() =~= a@.take(i as int));
        assert(a@.take(i + 1).last() == a@[i as int]);
        if !holds_row(b, a[i].id, &a[i].relative_path) {
            r.push(a[i].id);
        }
    }
    assert(a@.take(a@.len() as int) =~= a@);
    r
}

proof fn lemma_unmatched(a: Seq<IndexedRow>, b: Seq<IndexedRow>)
    ensures
        forall|i: int| 0 <= i < a.len() ==> has_row(b, #[trigger] a[i].id, a[i].relative_path@)
            || unmatched_ids(a, b).contains(a[i].id),
        forall|k: int| 0 <= k < unmatched_ids(a, b).len() ==> exists|i: int| 0 <= i < a.len()
            && a[i].id == #[trigger] unmatched_ids(a, b)[k] && !has_row(b, a[i].id, a[i].relative_path@),
    decreases a.len(),
{
    if a.len() > 0 {
        let rest = a.drop_last();
        lemma_unmatched(rest, b);
        let prev = unmatched_ids(rest, b);
        let u = unmatched_ids(a, b);
        let last = a.len() - 1;
        assert forall|i: int| 0 <= i < a.len() implies has_row(b, #[trigger] a[i].id, a[i].relative_path@)
            || u.contains(a[i].id) by {
            if i < last {
                assert(rest[i] == a[i]);
                if prev.contains(a[i].id) {
                    let k = choose|k: int| 0 <= k < prev.len() && prev[k] == a[i].id;
                    assert(u[k] == prev[k]);
                }
            } else if !has_row(b, a[i].id, a[i].relative_path@) {
                assert(u[prev.len() as int] == a[i].id);
            }
        }
        assert forall|k: int| 0 <= k < u.len() implies exists|i: int| 0 <= i < a.len()
            && a[i].id == #[trigger] u[k] && !has_row(b, a[i].id, a[i].relative_path@) by {
            if k < prev.len() {
                assert(u[k] == prev[k]);
                let i = choose|i: int| 0 <= i < rest.len() && rest[i].id == #[trigger] prev[k]
                    && !has_row(b, rest[i].id, rest[i].relative_path@);
                assert(a[i] == rest[i]);
            } else {
                assert(a[last].id == u[k]);
            }
        }
    }
}

/// After the repairs the two indexes agree: every active file has its entry or
/// is rewritten, every entry matches a file or is dropped, and nothing is dropped
/// or rewritten that was in order.
pub proof fn law_index_repairs_complete(files: Seq<IndexedRow>, entries: Seq<IndexedRow>)
    ensures
        forall|i: int| 0 <= i < files.len() ==> has_row(entries, #[trigger] files[i].id, files[i].relative_path@)
            || unmatched_ids(files, entries).contains(files[i].id),
        forall|j: int| 0 <= j < entries.len() ==> has_row(files, #[trigger] entries[j].id, entries[j].relative_path@)
            || unmatched_ids(entries, files).contains(entries[j].id),
        forall|k: int| 0 <= k < unmatched_ids(files, entries).len() ==> exists|i: int| 0 <= i < files.len()
            && files[i].id == #[trigger] unmatched_ids(files, entries)[k]
            && !has_row(entries, files[i].id, files[i].relative_path@),
        forall|k: int| 0 <= k < unmatched_ids(entries, files).len() ==> exists|j: int| 0 <= j < entries.len()
            && entries[j].id == #[trigger] unmatched_ids(entries, files)[k]
            && !has_row(files, entries[j].id, entries[j].relative_path@),
{
    lemma_unmatched(files, entries);
    lemma_unmatched(entries, files);
}

/// The startup check of the full-text index against the file index: the entries
/// to drop (no active file has their id and path) and the files whose entry must
/// be written again (no entry has their id and path).
pub fn index_repairs(files: &Vec<IndexedRow>, entries: &Vec<IndexedRow>) -> (r: (Vec<i64>, Vec<i64>))
    ensures
        r.0@ == unmatched_ids(entries@, files@),
        r.1@ == unmatched_ids(files@, entries@),
{
    (unmatched(entries, files), unmatched(files, entries))
}

/// The statement listing the active files of a task by path: page size default
/// 200, at most 1000; offset default 0.
pub fn task_files_statement(task_id: i64, limit: Option<i64>, offset: Option<i64>) -> (st: Statement)
    ensures
        st.sql@ == "SELECT id, task_id, relative_path, size, mtime, content_hash, status, last_synced_at, kind, "@
            + tags_subquery("file_records.id"@)
            + " FROM file_records WHERE task_id = ?1 AND status = 'active' ORDER BY relative_path LIMIT ?2 OFFSET ?3"@,
        param_views(st.params@) == seq![
            ParamView::Integer(task_id),
            ParamView::Integer(page_size(limit, 200, 1000)),
            ParamView::Integer(match offset { Some(o) => o, None => 0 }),
        ],
{
    let limit = page_limit(limit, 200, 1000);
    let offset = match offset {
        Some(o) => o,
        None => 0,
    };
    let mut sql = String::new();
    sql.append("SELECT id, task_id, relative_path, size, mtime, content_hash, status, last_synced_at, kind, ");
    push_tags_subquery(&mut sql, "file_records.id");
    sql.append(" FROM file_records WHERE task_id = ?1 AND status = 'active' ORDER BY relative_path LIMIT ?2 OFFSET ?3");
    let mut params: Vec<SqlParam> = Vec::new();
    params.push(SqlParam::Integer(task_id));
    params.push(SqlParam::Integer(limit));
    params.push(SqlParam::Integer(offset));
    assert(param_views(params@) =~= seq![
        ParamView::Integer(task_id),
        ParamView::Integer(page_size(Some(limit), 200, 1000)),
        ParamView::Integer(offset),
    ]);
    assert(sql@ =~= "SELECT id, task_id, relative_path, size, mtime, content_hash, status, last_synced_at, kind, "@
            + tags_subquery("file_records.id"@)
            + " FROM file_records WHERE task_id = ?1 AND status = 'active' ORDER BY relative_path LIMIT ?2 OFFSET ?3"@);
    Statement { sql, params }
}

} // verus!
