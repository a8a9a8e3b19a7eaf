//! Ordering text by code point, and stable sorting by a text key.

use vstd::prelude::*;

verus! {

/// `a` sorts strictly before `b`: at the first position where they differ `a` has the
/// smaller code point, or `a` is a proper prefix of `b` (the order of UTF-8 bytes).
pub open spec fn text_lt(a: Seq<char>, b: Seq<char>) -> bool
    decreases a.len(),
{
    if b.len() == 0 {
        false
    } else if a.len() == 0 {
        true
    } else if a[0] != b[0] {
        (a[0] as int) < (b[0] as int)
    } else {
        text_lt(a.drop_first(), b.drop_first())
    }
}

pub proof fn lemma_text_lt_irreflexive(a: Seq<char>)
    ensures
        !text_lt(a, a),
    decreases a.len(),
{
    if a.len() > 0 {
        lemma_text_lt_irreflexive(a.drop_first());
    }
}

pub proof fn lemma_text_lt_transitive(a: Seq<char>, b: Seq<char>, c: Seq<char>)
    requires
        text_lt(a, b),
        text_lt(b, c),
    ensures
        text_lt(a, c),
    decreases a.len(),
{
    if a.len() > 0 && b.len() > 0 && c.len() > 0 {
        if a[0] == b[0] && b[0] == c[0] {
            lemma_text_lt_transitive(a.drop_first(), b.drop_first(), c.drop_first());
        }
    }
}

pub proof fn lemma_text_lt_total(a: Seq<char>, b: Seq<char>)
    ensures
        a == b || text_lt(a, b) || text_lt(b, a),
    decreases a.len(),
{
    if a.len() > 0 && b.len() > 0 {
        if a[0] == b[0] {
            lemma_text_lt_total(a.drop_first(), b.drop_first());
            if a.drop_first() == b.drop_first() {
                assert(a =~= seq![a[0]] + a.drop_first());
                assert(b =~= seq![b[0]] + b.drop_first());
            }
        } else {
            assert((a[0] as int) != (b[0] as int));
        }
    } else if a.len() == 0 && b.len() == 0 {
        assert(a =~= b);
    }
}

pub proof fn lemma_text_lt_asymmetric(a: Seq<char>, b: Seq<char>)
    requires
        text_lt(a, b),
    ensures
        !text_lt(b, a),
{
    if text_lt(b, a) {
        lemma_text_lt_transitive(a, b, a);
        lemma_text_lt_irreflexive(a);
    }
}

/// Whether `a` sorts strictly before `b`.
pub fn chars_lt(a: &Vec<char>, b: &Vec<char>) -> (r: bool)
    ensures
        r == text_lt(a@, b@),
{
    let mut i: usize = 0;
    assert(a@.skip(0) =~= a@);
    assert(b@.skip(0) =~= b@);
    while i < a.len() && i < b.len() && a[i] == b[i]
        invariant
            i <= a@.len(),
            i <= b@.len(),
            forall|k: int| 0 <= k < i ==> a@[k] == b@[k],
            text_lt(a@, b@) == text_lt(a@.skip(i as int), b@.skip(i as int)),
        decreases a@.len() - i,
    {
        assert(a@.skip(i as int).drop_first() =~= a@.skip(i + 1));
        assert(b@.skip(i as int).drop_first() =~= b@.skip(i + 1));
        i = i + 1;
    }
    if i == b.len() {
        false
    } else if i == a.len() {
        true
    } else {
        assert(a@.skip(i as int)[0] == a@[i as int]);
        assert(b@.skip(i as int)[0] == b@[i as int]);
        a[i] < b[i]
    }
}

/// The keys in the order given by `p` are sorted (ascending, or descending when
/// `descending`), and positions with equal keys keep their input order.
pub open spec fn sorted_stably(keys: Seq<Seq<char>>, p: Seq<usize>, descending: bool) -> bool {
    &&& forall|a: int, b: int| 0 <= a < b < p.len() ==> if descending {
        !text_lt(#[trigger] keys[p[a] as int], #[trigger] keys[p[b] as int])
    } else {
        !text_lt(keys[p[b] as int], keys[p[a] as int])
    }
    &&& forall|a: int, b: int| 0 <= a < b < p.len() && #[trigger] keys[p[a] as int] == #[trigger] keys[p[b] as int] ==> p[a] < p[b]
}

/// `out` lists the items of `input` in the order `p`.
pub open spec fn permuted<T>(out: Seq<T>, input: Seq<T>, p: Seq<usize>) -> bool {
    &&& out.len() == p.len()
    &&& forall|i: int| 0 <= i < out.len() ==> #[trigger] out[i] == input[p[i] as int]
}

/// `p` lists each of `0..n` exactly once.
pub open spec fn is_index_permutation(p: Seq<usize>, n: nat) -> bool {
    &&& p.len() == n
    &&& forall|a: int| 0 <= a < p.len() ==> #[trigger] p[a] < n
    &&& forall|a: int, b: int| 0 <= a < b < p.len() ==> #[trigger] p[a] != #[trigger] p[b]
}

/// Whether key `i` sorts strictly before key `j` in the requested direction.
fn sorts_after(keys: &Vec<Vec<char>>, j: usize, i: usize, descending: bool) -> (r: bool)
    requires
        j < keys@.len(),
        i < keys@.len(),
    ensures
        r == if descending {
            text_lt(keys@[j as int]@, keys@[i as int]@)
        } else {
            text_lt(keys@[i as int]@, keys@[j as int]@)
        },
{
    if descending {
        chars_lt(&keys[j], &keys[i])
    } else {
        chars_lt(&keys[i], &keys[j])
    }
}

/// The order in which to list items so that their keys are sorted, ties kept in
/// input order (a stable sort).
pub fn sorted_order(keys: &Vec<Vec<char>>, descending: bool) -> (p: Vec<usize>)
    ensures
        is_index_permutation(p@, keys@.len()),
        sorted_stably(keys@.map_values(|k: Vec<char>| k@), p@, descending),
{
    let ghost ks = keys@.map_values(|k: Vec<char>| k@);
    let mut p: Vec<usize> = Vec::new();
    for i in 0..keys.len()
        invariant
            ks == keys@.map_values(|k: Vec<char>| k@),
            p@.len() == i,
            forall|a: int| 0 <= a < p@.len() ==> #[trigger] p@[a] < i,
            forall|a: int, b: int| 0 <= a < b < p@.len() ==> #[trigger] p@[a] != #[trigger] p@[b],
            sorted_stably(ks, p@, descending),
    {
        // Position after every entry that does not sort strictly after the new key.
        let mut pos: usize = 0;
        while pos < p.len() && !sorts_after(keys, p[pos], i, descending)
            invariant
                ks == keys@.map_values(|k: Vec<char>| k@),
                i < keys@.len(),
                pos <= p@.len(),
                forall|a: int| 0 <= a < p@.len() ==> #[trigger] p@[a] < i,
                forall|a: int| 0 <= a < pos ==> if descending {
                    !text_lt(ks[p@[a] as int], ks[i as int])
                } else {
                    !text_lt(ks[i as int], ks[p@[a] as int])
                },
            decreases p@.len() - pos,
        {
            pos = pos + 1;
        }
        let ghost old_p = p@;
        proof {
            // Entries from `pos` on sort strictly after the new key.
            assert forall|a: int| pos <= a < old_p.len() implies if descending {
                text_lt(ks[old_p[a] as int], ks[i as int])
            } else {
                text_lt(ks[i as int], ks[old_p[a] as int])
            } by {
                if pos < old_p.len() && a > pos {
                    let x = ks[old_p[pos as int] as int];
                    let y = ks[old_p[a] as int];
                    let z = ks[i as int];
                    if descending {
                        assert(!text_lt(x, y));
                        lemma_text_lt_total(x, y);
                        if y != x {
                            lemma_text_lt_transitive(y, x, z);
                        }
                    } else {
                        assert(!text_lt(y, x));
                        lemma_text_lt_total(x, y);
                        if y != x {
                            lemma_text_lt_transitive(z, x, y);
                        }
                    }
                }
            }
        }
        p.insert(pos, i);
        proof {
            assert(p@ =~= old_p.subrange(0, pos as int).push(i).add(old_p.subrange(pos as int, old_p.len() as int)));
            assert forall|a: int| 0 <= a < p@.len() implies #[trigger] p@[a] < i + 1 by {
                if a < pos {
                    assert(p@[a] == old_p[a]);
                } else if a > pos {
                    assert(p@[a] == old_p[a - 1]);
                }
            }
            assert forall|a: int, b: int| 0 <= a < b < p@.len() implies #[trigger] p@[a] != #[trigger] p@[b] by {
                if a < pos && b < pos {
                    assert(p@[a] == old_p[a] && p@[b] == old_p[b]);
                } else if a < pos && b == pos {
                    assert(p@[a] == old_p[a]);
                } else if a < pos && b > pos {
                    assert(p@[a] == old_p[a] && p@[b] == old_p[b - 1]);
                } else if a == pos {
                    assert(p@[b] == old_p[b - 1]);
                } else {
                    assert(p@[a] == old_p[a - 1] && p@[b] == old_p[b - 1]);
                }
            }
            assert forall|a: int, b: int| 0 <= a < b < p@.len() implies if descending {
                !text_lt(#[trigger] ks[p@[a] as int], #[trigger] ks[p@[b] as int])
            } else {
                !text_lt(ks[p@[b] as int], ks[p@[a] as int])
            } by {
                let z = ks[i as int];
                if a < pos && b < pos {
                    assert(p@[a] == old_p[a] && p@[b] == old_p[b]);
                } else if a < pos && b == pos {
                    assert(p@[a] == old_p[a]);
                } else if a < pos && b > pos {
                    assert(p@[a] == old_p[a] && p@[b] == old_p[b - 1]);
                    let x = ks[old_p[a] as int];
                    let y = ks[old_p[b - 1] as int];
                    if descending {
                        lemma_text_lt_asymmetric(y, z);
                        if text_lt(x, y) {
                            lemma_text_lt_total(x, z);
                            if x != z {
                                lemma_text_lt_transitive(x, y, z);
                            }
                        }
                    } else {
                        lemma_text_lt_asymmetric(z, y);
                        if text_lt(y, x) {
                            lemma_text_lt_total(x, z);
                            if x != z {
                                lemma_text_lt_transitive(z, y, x);
                            }
                        }
                    }
                } else if a == pos {
                    assert(p@[b] == old_p[b - 1]);
                    let y = ks[old_p[b - 1] as int];
                    if descending {
                        lemma_text_lt_asymmetric(y, z);
                    } else {
                        lemma_text_lt_asymmetric(z, y);
                    }
                } else {
                    assert(p@[a] == old_p[a - 1] && p@[b] == old_p[b - 1]);
                }
            }
            assert forall|a: int, b: int| 0 <= a < b < p@.len() && #[trigger] ks[p@[a] as int] == #[trigger] ks[p@[b] as int] implies p@[a] < p@[b] by {
                let z = ks[i as int];
                if a < pos && b < pos {
                    assert(p@[a] == old_p[a] && p@[b] == old_p[b]);
                } else if a < pos && b == pos {
                    assert(p@[a] == old_p[a]);
                } else if a < pos && b > pos {
                    assert(p@[a] == old_p[a] && p@[b] == old_p[b - 1]);
                } else if a == pos {
                    assert(p@[b] == old_p[b - 1]);
                    let y = ks[old_p[b - 1] as int];
                    lemma_text_lt_irreflexive(z);
                } else {
                    assert(p@[a] == old_p[a - 1] && p@[b] == old_p[b - 1]);
                }
            }
        }
    }
    p
}

/// The counts in the order `p` never increase, and positions with equal counts keep
/// their input order.
pub open spec fn sorted_desc_stably(keys: Seq<usize>, p: Seq<usize>) -> bool {
    &&& forall|a: int, b: int| 0 <= a < b < p.len() ==> #[trigger] keys[p[a] as int] >= #[trigger] keys[p[b] as int]
    &&& forall|a: int, b: int| 0 <= a < b < p.len() && #[trigger] keys[p[a] as int] == #[trigger] keys[p[b] as int] ==> p[a] < p[b]
}

/// The order in which to list items so that their counts decrease, ties kept in
/// input order (a stable sort).
pub fn order_by_count_desc(keys: &Vec<usize>) -> (p: Vec<usize>)
    ensures
        is_index_permutation(p@, keys@.len()),
        sorted_desc_stably(keys@, p@),
{
    let mut p: Vec<usize> = Vec::new();
    for i in 0..keys.len()
        invariant
            p@.len() == i,
            forall|a: int| 0 <= a < p@.len() ==> #[trigger] p@[a] < i,
            forall|a: int, b: int| 0 <= a < b < p@.len() ==> #[trigger] p@[a] != #[trigger] p@[b],
            sorted_desc_stably(keys@, p@),
    {
        let mut pos: usize = 0;
        while pos < p.len() && keys[p[pos]] >= keys[i]
            invariant
                i < keys@.len(),
                pos <= p@.len(),
                forall|a: int| 0 <= a < p@.len() ==> #[trigger] p@[a] < i,
                forall|a: int| 0 <= a < pos ==> keys@[#[trigger] p@[a] as int] >= keys@[i as int],
            decreases p@.len() - pos,
        {
            pos = pos + 1;
        }
        let ghost old_p = p@;
        proof {
            assert forall|a: int| pos <= a < old_p.len() implies keys@[#[trigger] old_p[a] as int] < keys@[i as int] by {
                if a > pos {
                    assert(keys@[old_p[pos as int] as int] >= keys@[old_p[a] as int]);
                }
            }
        }
        p.insert(pos, i);
        proof {
            assert forall|a: int| 0 <= a < p@.len() implies #[trigger] p@[a] < i + 1 by {
                if a < pos {
                    assert(p@[a] == old_p[a]);
                } else if a > pos {
                    assert(p@[a] == old_p[a - 1]);
                }
            }
            assert forall|a: int, b: int| 0 <= a < b < p@.len() implies #[trigger] p@[a] != #[trigger] p@[b] by {
                if a < pos && b < pos {
                    assert(p@[a] == old_p[a] && p@[b] == old_p[b]);
                } else if a < pos && b == pos {
                    assert(p@[a] == old_p[a]);
                } else if a < pos && b > pos {
                    assert(p@[a] == old_p[a] && p@[b] == old_p[b - 1]);
                } else if a == pos {
                    assert(p@[b] == old_p[b - 1]);
                } else {
                    assert(p@[a] == old_p[a - 1] && p@[b] == old_p[b - 1]);
                }
            }
            assert forall|a: int, b: int| 0 <= a < b < p@.len() implies #[trigger] keys@[p@[a] as int] >= #[trigger] keys@[p@[b] as int] by {
                if a < pos && b < pos {
                    assert(p@[a] == old_p[a] && p@[b] == old_p[b]);
                } else if a < pos && b == pos {
                    assert(p@[a] == old_p[a]);
                } else if a < pos && b > pos {
                    assert(p@[a] == old_p[a] && p@[b] == old_p[b - 1]);
                } else if a == pos {
                    assert(p@[b] == old_p[b - 1]);
                } else {
                    assert(p@[a] == old_p[a - 1] && p@[b] == old_p[b - 1]);
                }
            }
            assert forall|a: int, b: int| 0 <= a < b < p@.len() && #[trigger] keys@[p@[a] as int] == #[trigger] keys@[p@[b] as int] implies p@[a] < p@[b] by {
                if a < pos && b < pos {
                    assert(p@[a] == old_p[a] && p@[b] == old_p[b]);
                } else if a < pos && b == pos {
                    assert(p@[a] == old_p[a]);
                } else if a < pos && b > pos {
                    assert(p@[a] == old_p[a] && p@[b] == old_p[b - 1]);
                } else if a == pos {
                    assert(p@[b] == old_p[b - 1]);
                } else {
                    assert(p@[a] == old_p[a - 1] && p@[b] == old_p[b - 1]);
                }
            }
        }
    }
    p
}

} // verus!
