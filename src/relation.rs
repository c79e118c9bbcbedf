//! First-degree relations of an address: which addresses sent to it, received
//! from it, or shared a side of a transaction with it, and how often.

use vstd::prelude::*;

verus! {

/// The two address lists of a transaction, as address ids.
pub struct Links {
    pub from: Vec<i64>,
    pub to: Vec<i64>,
}

/// The sender and receiver ids of each transaction.
pub open spec fn link_views(rows: Seq<Links>) -> Seq<(Seq<i64>, Seq<i64>)> {
    rows.map_values(|l: Links| (l.from@, l.to@))
}

/// One side of a transaction: its senders (`true`) or its receivers.
pub open spec fn side(l: (Seq<i64>, Seq<i64>), senders: bool) -> Seq<i64> {
    if senders {
        l.0
    } else {
        l.1
    }
}

/// The number of transactions among `rows` in which `a` stands on the side
/// `a_side` and `b` on the side `b_side`. A transaction counts once however
/// often the two are listed in it: a quantity is the number of interactions,
/// and a Cardano transaction lists its receiver once per output, so that a
/// payment with two outputs to one address is still one interaction. Counting
/// transactions also keeps every count within the number of rows.
pub open spec fn pair_count(rows: Seq<(Seq<i64>, Seq<i64>)>, a: i64, a_side: bool, b: i64, b_side: bool) -> nat
    decreases rows.len(),
{
    if rows.len() == 0 {
        0
    } else {
        let l = rows.last();
        pair_count(rows.drop_last(), a, a_side, b, b_side) + if side(l, a_side).contains(a)
            && side(l, b_side).contains(b) {
            1nat
        } else {
            0nat
        }
    }
}

/// How often `b` was a sender to `a`: the transactions in which `b` sends and
/// `a` receives.
pub open spec fn input_count(rows: Seq<(Seq<i64>, Seq<i64>)>, a: i64, b: i64) -> nat {
    pair_count(rows, a, false, b, true)
}

/// How often `b` received from `a`: the transactions in which `a` sends and `b`
/// receives.
pub open spec fn output_count(rows: Seq<(Seq<i64>, Seq<i64>)>, a: i64, b: i64) -> nat {
    pair_count(rows, a, true, b, false)
}

/// How often `b` sent beside `a`: the transactions in which both send.
pub open spec fn mixed_in_count(rows: Seq<(Seq<i64>, Seq<i64>)>, a: i64, b: i64) -> nat {
    pair_count(rows, a, true, b, true)
}

/// How often `b` received beside `a`: the transactions in which both receive.
pub open spec fn mixed_out_count(rows: Seq<(Seq<i64>, Seq<i64>)>, a: i64, b: i64) -> nat {
    pair_count(rows, a, false, b, false)
}

/// `x` comes before `y` in a ranking: a larger quantity first, and between equal
/// quantities the smaller id.
pub open spec fn ranks_before(x: (i64, u64), y: (i64, u64)) -> bool {
    x.1 > y.1 || (x.1 == y.1 && x.0 < y.0)
}

/// Each entry of `s` ranks before every later one.
pub open spec fn is_ranked(s: Seq<(i64, u64)>) -> bool {
    forall|i: int, j: int| 0 <= i < j < s.len() ==> ranks_before(#[trigger] s[i], #[trigger] s[j])
}

/// No id stands twice in `s`.
pub open spec fn unique_ids(s: Seq<(i64, u64)>) -> bool {
    forall|i: int, j: int| 0 <= i < s.len() && 0 <= j < s.len() && #[trigger] s[i].0 == #[trigger] s[j].0 ==> i == j
}

/// Whether `x` is among the first `j` entries of `v`.
fn occurs_before(v: &Vec<i64>, j: usize, x: i64) -> (r: bool)
    requires
        j <= v@.len(),
    ensures
        r == v@.subrange(0, j as int).contains(x),
{
    let mut k: usize = 0;
    while k < j
        invariant
            k <= j <= v@.len(),
            forall|m: int| 0 <= m < k ==> v@[m] != x,
        decreases j - k,
    {
        if v[k] == x {
            assert(v@.subrange(0, j as int)[k as int] == x);
            return true;
        }
        k = k + 1;
    }
    assert(!v@.subrange(0, j as int).contains(x)) by {
        if v@.subrange(0, j as int).contains(x) {
            let m = choose|m: int| 0 <= m < j && #[trigger] v@.subrange(0, j as int)[m] == x;
            assert(v@[m] == x);
        }
    }
    false
}

/// Whether `x` is listed in `v`.
pub(crate) fn lists(v: &Vec<i64>, x: i64) -> (r: bool)
    ensures
        r == v@.contains(x),
{
    let r = occurs_before(v, v.len(), x);
    assert(v@.subrange(0, v@.len() as int) =~= v@);
    r
}

/// Adds one to the count of `b` in `t`, which starts at zero for an id not yet
/// listed.
fn bump(t: &mut Vec<(i64, u64)>, b: i64, cap: Ghost<nat>)
    requires
        unique_ids(old(t)@),
        forall|i: int| 0 <= i < old(t)@.len() ==> #[trigger] old(t)@[i].1 <= cap@,
        forall|i: int| 0 <= i < old(t)@.len() ==> #[trigger] old(t)@[i].1 > 0,
        count_in(old(t)@, b) < cap@,
        cap@ <= u64::MAX,
    ensures
        unique_ids(final(t)@),
        forall|i: int| 0 <= i < final(t)@.len() ==> #[trigger] final(t)@[i].1 <= cap@,
        forall|i: int| 0 <= i < final(t)@.len() ==> #[trigger] final(t)@[i].1 > 0,
        forall|c: i64| #[trigger] count_in(final(t)@, c) == count_in(old(t)@, c) + if c == b { 1nat } else { 0nat },
{
    let mut k: usize = 0;
    while k < t.len()
        invariant
            k <= t@.len(),
            t@ == old(t)@,
            unique_ids(old(t)@),
            forall|i: int| 0 <= i < old(t)@.len() ==> #[trigger] old(t)@[i].1 <= cap@,
            forall|i: int| 0 <= i < old(t)@.len() ==> #[trigger] old(t)@[i].1 > 0,
            count_in(old(t)@, b) < cap@,
            cap@ <= u64::MAX,
            forall|m: int| 0 <= m < k ==> t@[m].0 != b,
        decreases t@.len() - k,
    {
        if t[k].0 == b {
            let v = t[k].1;
            proof {
                lemma_count_in_index(t@, k as int);
            }
            let ghost before = t@;
            t.set(k, (b, v + 1));
            proof {
                assert forall|c: i64| #[trigger] count_in(t@, c) == count_in(before, c) + if c == b { 1nat } else { 0nat } by {
                    lemma_count_in_index(before, k as int);
                    lemma_count_in_index(t@, k as int);
                    if c != b {
                        lemma_count_in_set(before, k as int, (b, (v + 1) as u64), c);
                    }
                }
            }
            return;
        }
        k = k + 1;
    }
    let ghost before = t@;
    t.push((b, 1));
    proof {
        assert forall|c: i64| #[trigger] count_in(t@, c) == count_in(before, c) + if c == b { 1nat } else { 0nat } by {
            assert(t@.drop_last() =~= before);
            if c == b {
                lemma_count_in_absent(before, b);
            }
        }
    }
}

/// The count that `t` holds for `c`: zero where `c` is not listed.
pub open spec fn count_in(t: Seq<(i64, u64)>, c: i64) -> nat
    decreases t.len(),
{
    if t.len() == 0 {
        0
    } else if t.last().0 == c {
        t.last().1 as nat
    } else {
        count_in(t.drop_last(), c)
    }
}

pub(crate) proof fn lemma_count_in_found(t: Seq<(i64, u64)>, c: i64)
    requires
        count_in(t, c) > 0,
    ensures
        exists|i: int| 0 <= i < t.len() && t[i] == (c, count_in(t, c) as u64),
    decreases t.len(),
{
    if t.last().0 == c {
        assert(t[t.len() - 1] == (c, count_in(t, c) as u64));
    } else {
        lemma_count_in_found(t.drop_last(), c);
        let i = choose|i: int| 0 <= i < t.len() - 1 && t.drop_last()[i] == (c, count_in(t, c) as u64);
        assert(t[i] == t.drop_last()[i]);
    }
}

pub(crate) proof fn lemma_count_in_absent(t: Seq<(i64, u64)>, c: i64)
    requires
        forall|m: int| 0 <= m < t.len() ==> t[m].0 != c,
    ensures
        count_in(t, c) == 0,
    decreases t.len(),
{
    if t.len() > 0 {
        lemma_count_in_absent(t.drop_last(), c);
    }
}

pub(crate) proof fn lemma_count_in_index(t: Seq<(i64, u64)>, k: int)
    requires
        unique_ids(t),
        0 <= k < t.len(),
    ensures
        count_in(t, t[k].0) == t[k].1,
    decreases t.len(),
{
    if k < t.len() - 1 {
        let s = t.drop_last();
        assert(unique_ids(s));
        assert(s[k] == t[k]);
        lemma_count_in_index(s, k);
    }
}

pub(crate) proof fn lemma_count_in_set(t: Seq<(i64, u64)>, k: int, x: (i64, u64), c: i64)
    requires
        0 <= k < t.len(),
        x.0 == t[k].0,
        c != x.0,
    ensures
        count_in(t.update(k, x), c) == count_in(t, c),
    decreases t.len(),
{
    if k < t.len() - 1 {
        assert(t.update(k, x).drop_last() =~= t.drop_last().update(k, x));
        lemma_count_in_set(t.drop_last(), k, x, c);
    } else {
        assert(t.update(k, x).drop_last() =~= t.drop_last());
    }
}

proof fn lemma_pair_count_bound(rows: Seq<(Seq<i64>, Seq<i64>)>, a: i64, a_side: bool, b: i64, b_side: bool)
    ensures
        pair_count(rows, a, a_side, b, b_side) <= rows.len(),
    decreases rows.len(),
{
    if rows.len() > 0 {
        lemma_pair_count_bound(rows.drop_last(), a, a_side, b, b_side);
    }
}

proof fn lemma_pair_count_step(rows: Seq<(Seq<i64>, Seq<i64>)>, i: int, a: i64, a_side: bool, b: i64, b_side: bool)
    requires
        0 <= i < rows.len(),
    ensures
        pair_count(rows.subrange(0, i + 1), a, a_side, b, b_side) == pair_count(rows.subrange(0, i), a, a_side, b, b_side)
            + if side(rows[i], a_side).contains(a) && side(rows[i], b_side).contains(b) { 1nat } else { 0nat },
{
    let s = rows.subrange(0, i + 1);
    assert(s.drop_last() =~= rows.subrange(0, i));
    assert(s.last() == rows[i]);
}

/// Counts, for every address `b`, the transactions among `rows` in which the
/// address `a` stands on the side `a_side` (senders when `true`) and `b` on the
/// side `b_side`. Each id with a count that is not zero is listed once.
pub fn tally(rows: &Vec<Links>, a: i64, a_side: bool, b_side: bool) -> (r: Vec<(i64, u64)>)
    ensures
        unique_ids(r@),
        forall|i: int| 0 <= i < r@.len() ==> #[trigger] r@[i].1 > 0,
        forall|b: i64| #[trigger] count_in(r@, b) == pair_count(link_views(rows@), a, a_side, b, b_side),
{
    let mut t: Vec<(i64, u64)> = Vec::new();
    let n = rows.len();
    let mut i: usize = 0;
    while i < n
        invariant
            n == rows@.len(),
            i <= rows@.len(),
            unique_ids(t@),
            forall|k: int| 0 <= k < t@.len() ==> #[trigger] t@[k].1 > 0,
            forall|k: int| 0 <= k < t@.len() ==> #[trigger] t@[k].1 <= i,
            forall|b: i64| #[trigger] count_in(t@, b) == pair_count(link_views(rows@).subrange(0, i as int), a, a_side, b, b_side),
        decreases rows@.len() - i,
    {
        let l = &rows[i];
        let here = if a_side { &l.from } else { &l.to };
        let a_there = lists(here, a);
        let bs = if b_side { &l.from } else { &l.to };
        proof {
            assert(here@ == side(link_views(rows@)[i as int], a_side));
            assert(bs@ == side(link_views(rows@)[i as int], b_side));
        }
        if a_there {
            let mut j: usize = 0;
            while j < bs.len()
                invariant
                    n == rows@.len(),
                    i < n,
                    j <= bs@.len(),
                    unique_ids(t@),
                    forall|k: int| 0 <= k < t@.len() ==> #[trigger] t@[k].1 > 0,
                    forall|k: int| 0 <= k < t@.len() ==> #[trigger] t@[k].1 <= i + 1,
                    forall|b: i64| #[trigger] count_in(t@, b) == pair_count(link_views(rows@).subrange(0, i as int), a, a_side, b, b_side)
                        + if bs@.subrange(0, j as int).contains(b) { 1nat } else { 0nat },
                decreases bs@.len() - j,
            {
                let b = bs[j];
                let seen = occurs_before(bs, j, b);
                proof {
                    assert forall|c: i64| bs@.subrange(0, j + 1).contains(c) == (bs@.subrange(0, j as int).contains(c) || c == b) by {
                        if bs@.subrange(0, j + 1).contains(c) {
                            let m = choose|m: int| 0 <= m < j + 1 && #[trigger] bs@.subrange(0, j + 1)[m] == c;
                            if m < j {
                                assert(bs@.subrange(0, j as int)[m] == c);
                            }
                        }
                        if bs@.subrange(0, j as int).contains(c) {
                            let m = choose|m: int| 0 <= m < j && #[trigger] bs@.subrange(0, j as int)[m] == c;
                            assert(bs@.subrange(0, j + 1)[m] == c);
                        }
                        if c == b {
                            assert(bs@.subrange(0, j + 1)[j as int] == c);
                        }
                    }
                }
                if !seen {
                    proof {
                        lemma_pair_count_bound(link_views(rows@).subrange(0, i as int), a, a_side, b, b_side);
                        assert(count_in(t@, b) == pair_count(link_views(rows@).subrange(0, i as int), a, a_side, b, b_side));
                    }
                    bump(&mut t, b, Ghost((i + 1) as nat));
                }
                j = j + 1;
            }
            proof {
                assert(bs@.subrange(0, bs@.len() as int) =~= bs@);
            }
        }
        proof {
            assert forall|b: i64| #[trigger] count_in(t@, b) == pair_count(link_views(rows@).subrange(0, i + 1), a, a_side, b, b_side) by {
                lemma_pair_count_step(link_views(rows@), i as int, a, a_side, b, b_side);
            }
        }
        i = i + 1;
    }
    proof {
        assert(link_views(rows@).subrange(0, rows@.len() as int) =~= link_views(rows@));
    }
    t
}

/// Orders counted ids for display: a larger count first, and between equal
/// counts the smaller id first.
pub fn rank(t: &Vec<(i64, u64)>) -> (r: Vec<(i64, u64)>)
    requires
        unique_ids(t@),
    ensures
        is_ranked(r@),
        r@.len() == t@.len(),
        forall|x: (i64, u64)| r@.contains(x) <==> t@.contains(x),
{
    let mut r: Vec<(i64, u64)> = Vec::new();
    let mut i: usize = 0;
    while i < t.len()
        invariant
            i <= t@.len(),
            unique_ids(t@),
            is_ranked(r@),
            r@.len() == i,
            forall|x: (i64, u64)| r@.contains(x) <==> t@.subrange(0, i as int).contains(x),
        decreases t@.len() - i,
    {
        let x = t[i];
        proof {
            assert forall|k: int| 0 <= k < r@.len() implies #[trigger] r@[k].0 != x.0 by {
                assert(r@.contains(r@[k]));
                assert(t@.subrange(0, i as int).contains(r@[k]));
                let m = choose|m: int| 0 <= m < i && #[trigger] t@.subrange(0, i as int)[m] == r@[k];
                assert(t@[m] == r@[k]);
            }
        }
        let mut p: usize = 0;
        while p < r.len() && !(x.1 > r[p].1 || (x.1 == r[p].1 && x.0 < r[p].0))
            invariant
                p <= r@.len(),
                forall|k: int| 0 <= k < r@.len() ==> #[trigger] r@[k].0 != x.0,
                forall|k: int| 0 <= k < p ==> ranks_before(#[trigger] r@[k], x),
            decreases r@.len() - p,
        {
            p = p + 1;
        }
        let ghost before = r@;
        r.insert(p, x);
        proof {
            assert(r@ == before.insert(p as int, x));
            assert forall|a: int, b: int| 0 <= a < b < r@.len() implies ranks_before(#[trigger] r@[a], #[trigger] r@[b]) by {
                if b < p {
                } else if b == p {
                } else if a < p {
                    assert(ranks_before(before[a], x));
                    assert(ranks_before(x, before[p as int]) || b - 1 == p) ;
                } else if a == p {
                    assert(before[b - 1] == r@[b]);
                    assert(before[p as int].0 != x.0);
                } else {
                }
            }
            assert forall|y: (i64, u64)| r@.contains(y) <==> t@.subrange(0, i + 1).contains(y) by {
                if r@.contains(y) {
                    let m = choose|m: int| 0 <= m < r@.len() && #[trigger] r@[m] == y;
                    if m < p {
                        assert(before[m] == y);
                        assert(before.contains(y));
                    } else if m > p {
                        assert(before[m - 1] == y);
                        assert(before.contains(y));
                    }
                    if y != x {
                        let q = choose|q: int| 0 <= q < i && #[trigger] t@.subrange(0, i as int)[q] == y;
                        assert(t@.subrange(0, i + 1)[q] == y);
                    } else {
                        assert(t@.subrange(0, i + 1)[i as int] == y);
                    }
                }
                if t@.subrange(0, i + 1).contains(y) {
                    let q = choose|q: int| 0 <= q < i + 1 && #[trigger] t@.subrange(0, i + 1)[q] == y;
                    if q < i {
                        assert(t@.subrange(0, i as int)[q] == y);
                        assert(before.contains(y));
                        let m = choose|m: int| 0 <= m < before.len() && #[trigger] before[m] == y;
                        if m < p {
                            assert(r@[m] == y);
                        } else {
                            assert(r@[m + 1] == y);
                        }
                    } else {
                        assert(r@[p as int] == y);
                    }
                }
            }
        }
        i = i + 1;
    }
    proof {
        assert(t@.subrange(0, t@.len() as int) =~= t@);
    }
    r
}

/// `s` lists, once each and in ranking order, every address `b` that stands
/// on the side `b_side` of a transaction of `rows` in which `a` stands on the
/// side `a_side`, with the number of such transactions.
pub open spec fn counted_relation(s: Seq<(i64, u64)>, rows: Seq<(Seq<i64>, Seq<i64>)>, a: i64, a_side: bool, b_side: bool) -> bool {
    &&& is_ranked(s)
    &&& forall|i: int| 0 <= i < s.len() ==> (#[trigger] s[i]).1 == pair_count(rows, a, a_side, s[i].0, b_side) && s[i].1 > 0
    &&& forall|b: i64| pair_count(rows, a, a_side, b, b_side) > 0 ==> exists|i: int| 0 <= i < s.len() && (#[trigger] s[i]).0 == b
}

/// The counterparties of `a` in `rows`, counted and ranked.
pub fn counted(rows: &Vec<Links>, a: i64, a_side: bool, b_side: bool) -> (r: Vec<(i64, u64)>)
    ensures
        counted_relation(r@, link_views(rows@), a, a_side, b_side),
{
    let t = tally(rows, a, a_side, b_side);
    let r = rank(&t);
    proof {
        assert forall|i: int| 0 <= i < r@.len() implies (#[trigger] r@[i]).1 == pair_count(link_views(rows@), a, a_side, r@[i].0, b_side) && r@[i].1 > 0 by {
            assert(r@.contains(r@[i]));
            assert(t@.contains(r@[i]));
            let m = choose|m: int| 0 <= m < t@.len() && t@[m] == r@[i];
            lemma_count_in_index(t@, m);
        }
        assert forall|b: i64| pair_count(link_views(rows@), a, a_side, b, b_side) > 0 implies exists|i: int| 0 <= i < r@.len() && (#[trigger] r@[i]).0 == b by {
            assert(count_in(t@, b) > 0);
            lemma_count_in_found(t@, b);
            let m = choose|m: int| 0 <= m < t@.len() && t@[m] == (b, count_in(t@, b) as u64);
            assert(t@.contains(t@[m]));
            assert(r@.contains(t@[m]));
            let i = choose|i: int| 0 <= i < r@.len() && r@[i] == t@[m];
            assert(r@[i].0 == b);
        }
    }
    r
}

/// The four counterparty lists of an address, each counted and ranked.
pub struct RelationCounts {
    /// Senders of transactions that `a` receives.
    pub inputs: Vec<(i64, u64)>,
    /// Receivers of transactions that `a` sends.
    pub outputs: Vec<(i64, u64)>,
    /// Fellow senders of transactions that `a` sends.
    pub mixed_in: Vec<(i64, u64)>,
    /// Fellow receivers of transactions that `a` receives.
    pub mixed_out: Vec<(i64, u64)>,
}

/// `c` holds the four counterparty lists of `a` in `rows`.
pub open spec fn relation_counts_of(c: RelationCounts, rows: Seq<(Seq<i64>, Seq<i64>)>, a: i64) -> bool {
    &&& counted_relation(c.inputs@, rows, a, false, true)
    &&& counted_relation(c.outputs@, rows, a, true, false)
    &&& counted_relation(c.mixed_in@, rows, a, true, true)
    &&& counted_relation(c.mixed_out@, rows, a, false, false)
}

/// Counts the counterparties of the address `a` over the transactions `rows`:
/// a sender of a transaction is an input of `a` where `a` receives in it, and a
/// mixed input where `a` sends in it; a receiver is an output where `a` sends,
/// and a mixed output where `a` receives. Each list is ranked by count.
pub fn process_query(rows: &Vec<Links>, a: i64) -> (r: RelationCounts)
    ensures
        relation_counts_of(r, link_views(rows@), a),
{
    RelationCounts {
        inputs: counted(rows, a, false, true),
        outputs: counted(rows, a, true, false),
        mixed_in: counted(rows, a, true, true),
        mixed_out: counted(rows, a, false, false),
    }
}

/// In a transaction where `a` both sends and receives, every sender is counted
/// once as an input and once as a mixed input of `a`, and every receiver once
/// as an output and once as a mixed output.
pub proof fn self_transfer_counts(from: Seq<i64>, to: Seq<i64>, a: i64, b: i64)
    requires
        from.contains(a),
        to.contains(a),
    ensures
        input_count(seq![(from, to)], a, b) == if from.contains(b) { 1nat } else { 0nat },
        mixed_in_count(seq![(from, to)], a, b) == if from.contains(b) { 1nat } else { 0nat },
        output_count(seq![(from, to)], a, b) == if to.contains(b) { 1nat } else { 0nat },
        mixed_out_count(seq![(from, to)], a, b) == if to.contains(b) { 1nat } else { 0nat },
{
    let rows = seq![(from, to)];
    assert(rows.drop_last() =~= Seq::<(Seq<i64>, Seq<i64>)>::empty());
    assert(rows.last() == (from, to));
    assert(pair_count(rows.drop_last(), a, true, b, true) == 0);
    assert(pair_count(rows.drop_last(), a, true, b, false) == 0);
    assert(pair_count(rows.drop_last(), a, false, b, true) == 0);
    assert(pair_count(rows.drop_last(), a, false, b, false) == 0);
}

/// In a transaction where `a` only sends, its receivers are outputs of `a` and
/// nobody is an input or a mixed output of it.
pub proof fn one_way_counts(from: Seq<i64>, to: Seq<i64>, a: i64, b: i64)
    requires
        from.contains(a),
        !to.contains(a),
    ensures
        input_count(seq![(from, to)], a, b) == 0,
        mixed_out_count(seq![(from, to)], a, b) == 0,
        output_count(seq![(from, to)], a, b) == if to.contains(b) { 1nat } else { 0nat },
        mixed_in_count(seq![(from, to)], a, b) == if from.contains(b) { 1nat } else { 0nat },
{
    let rows = seq![(from, to)];
    assert(rows.drop_last() =~= Seq::<(Seq<i64>, Seq<i64>)>::empty());
    assert(rows.last() == (from, to));
    assert(pair_count(rows.drop_last(), a, true, b, true) == 0);
    assert(pair_count(rows.drop_last(), a, true, b, false) == 0);
    assert(pair_count(rows.drop_last(), a, false, b, true) == 0);
    assert(pair_count(rows.drop_last(), a, false, b, false) == 0);
}

proof fn lemma_pair_count_untouched(rows: Seq<(Seq<i64>, Seq<i64>)>, a: i64, a_side: bool, b: i64, b_side: bool)
    requires
        forall|i: int| 0 <= i < rows.len() ==> !(#[trigger] rows[i]).0.contains(a) && !rows[i].1.contains(a),
    ensures
        pair_count(rows, a, a_side, b, b_side) == 0,
    decreases rows.len(),
{
    if rows.len() > 0 {
        let d = rows.drop_last();
        assert forall|i: int| 0 <= i < d.len() implies !(#[trigger] d[i]).0.contains(a) && !d[i].1.contains(a) by {
            assert(d[i] == rows[i]);
        }
        lemma_pair_count_untouched(d, a, a_side, b, b_side);
        assert(rows.last() == rows[rows.len() - 1]);
    }
}

/// An address that no transaction names has no counterparty in any of the
/// four lists.
pub proof fn untouched_address_has_no_relations(rows: Seq<(Seq<i64>, Seq<i64>)>, a: i64, s: Seq<(i64, u64)>, a_side: bool, b_side: bool)
    requires
        forall|i: int| 0 <= i < rows.len() ==> !(#[trigger] rows[i]).0.contains(a) && !rows[i].1.contains(a),
        counted_relation(s, rows, a, a_side, b_side),
    ensures
        s.len() == 0,
{
    if s.len() > 0 {
        lemma_pair_count_untouched(rows, a, a_side, s[0].0, b_side);
        assert(s[0].1 == pair_count(rows, a, a_side, s[0].0, b_side));
    }
}

/// Two rankings of the same entries are the same sequence.
pub proof fn lemma_ranked_unique(s: Seq<(i64, u64)>, t: Seq<(i64, u64)>)
    requires
        is_ranked(s),
        is_ranked(t),
        forall|x: (i64, u64)| s.contains(x) <==> t.contains(x),
    ensures
        s == t,
    decreases s.len(),
{
    if s.len() == 0 {
        if t.len() > 0 {
            assert(t.contains(t[0]));
        }
        assert(s =~= t);
    } else {
        assert(s.contains(s[0]));
        assert(t.len() > 0);
        assert(t.contains(t[0]));
        let j = choose|j: int| 0 <= j < t.len() && t[j] == s[0];
        let k = choose|k: int| 0 <= k < s.len() && s[k] == t[0];
        if j > 0 {
            assert(ranks_before(t[0], t[j]));
            if k > 0 {
                assert(ranks_before(s[0], s[k]));
            }
        }
        assert(s[0] == t[0]);
        let s1 = s.subrange(1, s.len() as int);
        let t1 = t.subrange(1, t.len() as int);
        assert forall|x: (i64, u64)| s1.contains(x) <==> t1.contains(x) by {
            if s1.contains(x) {
                let m = choose|m: int| 0 <= m < s1.len() && s1[m] == x;
                assert(s[m + 1] == x);
                assert(ranks_before(s[0], s[m + 1]));
                assert(t.contains(x));
                let q = choose|q: int| 0 <= q < t.len() && t[q] == x;
                assert(q != 0);
                assert(t1[q - 1] == x);
            }
            if t1.contains(x) {
                let m = choose|m: int| 0 <= m < t1.len() && t1[m] == x;
                assert(t[m + 1] == x);
                assert(ranks_before(t[0], t[m + 1]));
                assert(s.contains(x));
                let q = choose|q: int| 0 <= q < s.len() && s[q] == x;
                assert(q != 0);
                assert(s1[q - 1] == x);
            }
        }
        assert forall|a: int, b: int| 0 <= a < b < s1.len() implies ranks_before(#[trigger] s1[a], #[trigger] s1[b]) by {
            assert(s1[a] == s[a + 1] && s1[b] == s[b + 1]);
        }
        assert forall|a: int, b: int| 0 <= a < b < t1.len() implies ranks_before(#[trigger] t1[a], #[trigger] t1[b]) by {
            assert(t1[a] == t[a + 1] && t1[b] == t[b + 1]);
        }
        lemma_ranked_unique(s1, t1);
        assert(s =~= seq![s[0]] + s1);
        assert(t =~= seq![t[0]] + t1);
    }
}

/// A counted relation lists each id once.
pub proof fn lemma_counted_unique(s: Seq<(i64, u64)>, rows: Seq<(Seq<i64>, Seq<i64>)>, a: i64, a_side: bool, b_side: bool)
    requires
        counted_relation(s, rows, a, a_side, b_side),
    ensures
        unique_ids(s),
{
    assert forall|i: int, j: int| 0 <= i < s.len() && 0 <= j < s.len() && #[trigger] s[i].0 == #[trigger] s[j].0 implies i == j by {
        assert(s[i].1 == pair_count(rows, a, a_side, s[i].0, b_side));
        assert(s[j].1 == pair_count(rows, a, a_side, s[j].0, b_side));
        if i < j {
            assert(ranks_before(s[i], s[j]));
        } else if j < i {
            assert(ranks_before(s[j], s[i]));
        }
    }
}

} // verus!
