//! Transactions as the feeds hand them over, and the mapping of their address
//! hashes to address ids.

use vstd::prelude::*;
use crate::store::same_bytes;

verus! {

/// A transaction read from a feed: its hash, the amount where the chain has
/// one, and the hashes of its senders and receivers.
pub struct TxInput {
    pub hash: Vec<u8>,
    pub amount: Option<u128>,
    pub from: Vec<Vec<u8>>,
    pub to: Vec<Vec<u8>>,
}

/// A transaction row to store: its hash, amount, and sender and receiver ids.
pub struct TransactionDraft {
    pub hash: Vec<u8>,
    pub amount: Option<u128>,
    pub from: Vec<i64>,
    pub to: Vec<i64>,
}

/// The id that `ids` gives to the hash `h`: the last one listed for it.
pub open spec fn id_for(ids: Seq<(Vec<u8>, i64)>, h: Seq<u8>) -> Option<i64>
    decreases ids.len(),
{
    if ids.len() == 0 {
        None
    } else if ids.last().0@ == h {
        Some(ids.last().1)
    } else {
        id_for(ids.drop_last(), h)
    }
}

/// Each id of `s` is smaller than the next.
pub open spec fn ascending(s: Seq<i64>) -> bool {
    forall|i: int, j: int| 0 <= i < j < s.len() ==> #[trigger] s[i] < #[trigger] s[j]
}

/// Some hash of `hs` has the id `x` in `ids`.
pub open spec fn resolves_to(ids: Seq<(Vec<u8>, i64)>, hs: Seq<Vec<u8>>, x: i64) -> bool {
    exists|j: int| 0 <= j < hs.len() && id_for(ids, (#[trigger] hs[j])@) == Some(x)
}

/// The id of the hash `h` in `ids`.
pub fn lookup_id(ids: &Vec<(Vec<u8>, i64)>, h: &Vec<u8>) -> (r: Option<i64>)
    ensures
        r == id_for(ids@, h@),
{
    let mut k: usize = ids.len();
    assert(ids@.subrange(0, k as int) =~= ids@);
    while k > 0
        invariant
            k <= ids@.len(),
            id_for(ids@.subrange(0, k as int), h@) == id_for(ids@, h@),
        decreases k,
    {
        proof {
            assert(ids@.subrange(0, k as int).drop_last() =~= ids@.subrange(0, k - 1));
        }
        if same_bytes(&ids[k - 1].0, h) {
            return Some(ids[k - 1].1);
        }
        k = k - 1;
    }
    None
}

/// Adds `x` to an ascending list of ids, unless it is there.
pub fn insert_ascending(v: &mut Vec<i64>, x: i64)
    requires
        ascending(old(v)@),
    ensures
        ascending(final(v)@),
        forall|y: i64| final(v)@.contains(y) <==> (old(v)@.contains(y) || y == x),
{
    let mut p: usize = 0;
    while p < v.len() && v[p] < x
        invariant
            p <= v@.len(),
            v@ == old(v)@,
            ascending(old(v)@),
            forall|k: int| 0 <= k < p ==> #[trigger] v@[k] < x,
        decreases v@.len() - p,
    {
        p = p + 1;
    }
    if p < v.len() && v[p] == x {
        assert(v@[p as int] == x);
        return;
    }
    let ghost before = v@;
    v.insert(p, x);
    proof {
        assert(v@ == before.insert(p as int, x));
        assert(before == old(v)@);
        assert forall|y: i64| #[trigger] v@.contains(y) <==> (before.contains(y) || y == x) by {
            if v@.contains(y) {
                let m = choose|m: int| 0 <= m < v@.len() && v@[m] == y;
                if m < p {
                    assert(before[m] == y);
                } else if m > p {
                    assert(before[m - 1] == y);
                }
            }
            if before.contains(y) {
                let m = choose|m: int| 0 <= m < before.len() && before[m] == y;
                if m < p {
                    assert(v@[m] == y);
                } else {
                    assert(v@[m + 1] == y);
                }
            }
            if y == x {
                assert(v@[p as int] == y);
            }
        }
    }
}

/// The ids of the hashes `hashes`, ascending and without repetition. A hash
/// that `ids` does not know is left out; every one that it knows is in.
pub fn resolve_side(hashes: &Vec<Vec<u8>>, ids: &Vec<(Vec<u8>, i64)>) -> (r: Vec<i64>)
    ensures
        ascending(r@),
        forall|x: i64| r@.contains(x) <==> resolves_to(ids@, hashes@, x),
{
    let mut r: Vec<i64> = Vec::new();
    let mut i: usize = 0;
    while i < hashes.len()
        invariant
            i <= hashes@.len(),
            ascending(r@),
            forall|x: i64| r@.contains(x) <==> resolves_to(ids@, hashes@.subrange(0, i as int), x),
        decreases hashes@.len() - i,
    {
        let found = lookup_id(ids, &hashes[i]);
        let ghost before = r@;
        assert(found == id_for(ids@, hashes@[i as int]@));
        proof {
            assert forall|x: i64| resolves_to(ids@, hashes@.subrange(0, i + 1), x) <==> (resolves_to(
                ids@,
                hashes@.subrange(0, i as int),
                x,
            ) || id_for(ids@, hashes@[i as int]@) == Some(x)) by {
                let s = hashes@.subrange(0, i + 1);
                let t = hashes@.subrange(0, i as int);
                if resolves_to(ids@, s, x) {
                    let j = choose|j: int| 0 <= j < s.len() && id_for(ids@, (#[trigger] s[j])@) == Some(x);
                    if j < i {
                        assert(t[j] == s[j]);
                    }
                }
                if resolves_to(ids@, t, x) {
                    let j = choose|j: int| 0 <= j < t.len() && id_for(ids@, (#[trigger] t[j])@) == Some(x);
                    assert(t[j] == s[j]);
                }
                if id_for(ids@, hashes@[i as int]@) == Some(x) {
                    assert(s[i as int] == hashes@[i as int]);
                }
            }
        }
        match found {
            Some(x) => {
                insert_ascending(&mut r, x);
            },
            None => {},
        }
        proof {
            assert forall|x: i64| r@.contains(x) <==> resolves_to(ids@, hashes@.subrange(0, i + 1), x) by {
                assert(before.contains(x) <==> resolves_to(ids@, hashes@.subrange(0, i as int), x));
            }
        }
        i = i + 1;
    }
    proof {
        assert(hashes@.subrange(0, hashes@.len() as int) =~= hashes@);
    }
    r
}

/// Appends `x` to `v`, unless it is there.
pub fn push_new(v: &mut Vec<i64>, x: i64)
    ensures
        final(v)@ == if old(v)@.contains(x) {
            old(v)@
        } else {
            old(v)@.push(x)
        },
{
    if !crate::relation::lists(v, x) {
        v.push(x);
    }
}

} // verus!
