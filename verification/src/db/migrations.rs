//! Schema versions: which migrations a database still needs.

use vstd::prelude::*;

verus! {

/// The schema version the migrations lead to.
pub const LATEST_VERSION: u32 = 4;

/// The migrations a database at `version` still needs, in order: every version
/// from 1 to `LATEST_VERSION` that is above it.
pub open spec fn pending(version: i64) -> Seq<u32> {
    Seq::new(4, |i: int| (i + 1) as u32).filter(|k: u32| version < k)
}

/// The migrations a database at `version` still needs, in order.
pub fn pending_migrations(version: i64) -> (v: Vec<u32>)
    ensures
        v@ == pending(version),
        forall|i: int, j: int| 0 <= i < j < v@.len() ==> v@[i] < v@[j],
        forall|k: u32| 1 <= k <= LATEST_VERSION ==> (v@.contains(k) <==> version < k),
{
    let mut v: Vec<u32> = Vec::new();
    let ghost all = Seq::new(4, |i: int| (i + 1) as u32);
    let mut k: u32 = 1;
    while k <= LATEST_VERSION
        invariant
            1 <= k <= LATEST_VERSION + 1,
            all == Seq::new(4, |i: int| (i + 1) as u32),
            v@ == all.take(k - 1).filter(|x: u32| version < x),
            forall|i: int| 0 <= i < v@.len() ==> #[trigger] v@[i] < k,
            forall|i: int, j: int| 0 <= i < j < v@.len() ==> v@[i] < v@[j],
            forall|x: u32| 1 <= x < k ==> (v@.contains(x) <==> version < x),
        decreases LATEST_VERSION + 1 - k,
    {
        let ghost before = v@;
        assert(all.take(k as int).drop_last() =~= all.take(k - 1));
        assert(all.take(k as int).last() == k);
        proof {
            reveal_with_fuel(Seq::filter, 1);
        }
        if version < k as i64 {
            v.push(k);
            assert forall|x: u32| 1 <= x < k + 1 implies (v@.contains(x) <==> version < x) by {
                if x == k {
                    assert(v@[v@.len() - 1] == k);
                } else if v@.contains(x) {
                    let i = choose|i: int| 0 <= i < v@.len() && v@[i] == x;
                    if i < before.len() {
                        assert(before[i] == x);
                    }
                } else if before.contains(x) {
                    let i = choose|i: int| 0 <= i < before.len() && before[i] == x;
                    assert(v@[i] == x);
                }
            }
        } else {
            assert forall|x: u32| 1 <= x < k + 1 implies (v@.contains(x) <==> version < x) by {
                if x == k {
                    if v@.contains(x) {
                        let i = choose|i: int| 0 <= i < v@.len() && v@[i] == x;
                    }
                }
            }
        }
        k = k + 1;
    }
    assert(all.take(4) =~= all);
    v
}

/// The version a database at `version` has once its pending migrations ran: the
/// last migration applied, or `version` when none was pending.
pub open spec fn version_after(version: i64) -> i64 {
    if version < LATEST_VERSION { LATEST_VERSION as i64 } else { version }
}

/// Migrating leads to the latest version, and a database migrated once has
/// nothing pending: a second run applies no migration.
pub proof fn law_migrations_reach_latest(version: i64)
    ensures
        pending(version).len() > 0 ==> pending(version).last() as i64 == version_after(version),
        version < LATEST_VERSION ==> version_after(version) == LATEST_VERSION,
        pending(version_after(version)) == Seq::<u32>::empty(),
{
    let all = Seq::new(4, |i: int| (i + 1) as u32);
    assert(all =~= seq![1u32, 2u32, 3u32, 4u32]);
    reveal_with_fuel(Seq::filter, 5);
    let after = version_after(version);
    assert(all.drop_last() =~= seq![1u32, 2u32, 3u32]);
    assert(all.drop_last().drop_last() =~= seq![1u32, 2u32]);
    assert(all.drop_last().drop_last().drop_last() =~= seq![1u32]);
    assert(all.drop_last().drop_last().drop_last().drop_last() =~= Seq::<u32>::empty());
    assert(pending(after) =~= Seq::<u32>::empty());
    if version < 4 {
        assert(pending(version).last() == 4u32);
    }
}

} // verus!
