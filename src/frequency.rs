//! Frequency tables of tags and services over the counterparties of an address.

use vstd::prelude::*;
use crate::relation::{count_in, unique_ids, ranks_before, rank};

verus! {

/// A tag or a service, with its title and the summed quantity of the
/// counterparties that carry it.
pub struct Frequency {
    pub id: i32,
    pub title: String,
    pub quantity: u64,
}

/// The labels and quantity of each entry.
pub open spec fn label_views(entries: Seq<(Vec<i32>, u64)>) -> Seq<(Seq<i32>, u64)> {
    entries.map_values(|e: (Vec<i32>, u64)| (e.0@, e.1))
}

/// The summed quantity of the entries whose labels include `label`.
pub open spec fn label_weight(entries: Seq<(Seq<i32>, u64)>, label: i32) -> nat
    decreases entries.len(),
{
    if entries.len() == 0 {
        0
    } else {
        let e = entries.last();
        label_weight(entries.drop_last(), label) + if e.0.contains(label) {
            e.1 as nat
        } else {
            0nat
        }
    }
}

/// `x`, or the largest `u64` where `x` is larger.
pub open spec fn saturated(x: nat) -> nat {
    if x > u64::MAX {
        u64::MAX as nat
    } else {
        x
    }
}

/// The title that `titles` gives to `id`: the first one listed for it.
pub open spec fn title_of(titles: Seq<(i32, String)>, id: i32) -> Option<Seq<char>>
    decreases titles.len(),
{
    if titles.len() == 0 {
        None
    } else if titles[0].0 == id {
        Some(titles[0].1@)
    } else {
        title_of(titles.subrange(1, titles.len() as int), id)
    }
}

/// The title listed first for `id`, if any.
pub fn find_title(titles: &Vec<(i32, String)>, id: i32) -> (r: Option<String>)
    ensures
        r matches Some(s) ==> title_of(titles@, id) == Some(s@),
        r is None ==> title_of(titles@, id) is None,
{
    let mut k: usize = 0;
    assert(titles@.subrange(0, titles@.len() as int) =~= titles@);
    while k < titles.len()
        invariant
            k <= titles@.len(),
            title_of(titles@.subrange(k as int, titles@.len() as int), id) == title_of(titles@, id),
        decreases titles@.len() - k,
    {
        let ghost rest = titles@.subrange(k as int, titles@.len() as int);
        proof {
            assert(rest[0] == titles@[k as int]);
            assert(rest.subrange(1, rest.len() as int) =~= titles@.subrange(k + 1, titles@.len() as int));
        }
        if titles[k].0 == id {
            return Some(titles[k].1.clone());
        }
        k = k + 1;
    }
    None
}

/// Adds `w` to the value of `key` in `t`, up to the largest `u64`.
fn credit(t: &mut Vec<(i64, u64)>, key: i64, w: u64)
    requires
        unique_ids(old(t)@),
    ensures
        unique_ids(final(t)@),
        forall|c: i64| #[trigger] count_in(final(t)@, c) == if c == key {
            saturated(count_in(old(t)@, c) + w as nat)
        } else {
            count_in(old(t)@, c)
        },
        forall|i: int| 0 <= i < final(t)@.len() ==> (#[trigger] final(t)@[i]).0 == key
            || exists|k: int| 0 <= k < old(t)@.len() && old(t)@[k].0 == final(t)@[i].0,
{
    let mut k: usize = 0;
    while k < t.len()
        invariant
            k <= t@.len(),
            t@ == old(t)@,
            unique_ids(old(t)@),
            forall|m: int| 0 <= m < k ==> t@[m].0 != key,
        decreases t@.len() - k,
    {
        if t[k].0 == key {
            let v = t[k].1;
            proof {
                crate::relation::lemma_count_in_index(t@, k as int);
            }
            let nv = if v > u64::MAX - w { u64::MAX } else { v + w };
            let ghost before = t@;
            t.set(k, (key, nv));
            proof {
                assert forall|c: i64| #[trigger] count_in(t@, c) == if c == key {
                    saturated(count_in(before, c) + w as nat)
                } else {
                    count_in(before, c)
                } by {
                    crate::relation::lemma_count_in_index(t@, k as int);
                    if c != key {
                        crate::relation::lemma_count_in_set(before, k as int, (key, nv), c);
                    }
                }
                assert forall|i: int| 0 <= i < t@.len() implies (#[trigger] t@[i]).0 == key
                    || exists|m: int| 0 <= m < before.len() && before[m].0 == t@[i].0 by {
                    assert(before[i].0 == t@[i].0);
                }
            }
            return;
        }
        k = k + 1;
    }
    let ghost before = t@;
    t.push((key, w));
    proof {
        assert forall|c: i64| #[trigger] count_in(t@, c) == if c == key {
            saturated(count_in(before, c) + w as nat)
        } else {
            count_in(before, c)
        } by {
            assert(t@.drop_last() =~= before);
            if c == key {
                crate::relation::lemma_count_in_absent(before, key);
            }
        }
        assert forall|i: int| 0 <= i < t@.len() implies (#[trigger] t@[i]).0 == key
            || exists|m: int| 0 <= m < before.len() && before[m].0 == t@[i].0 by {
            if i < before.len() {
                assert(before[i].0 == t@[i].0);
            }
        }
    }
}

/// Whether `x` is among the first `j` labels of `v`.
fn label_before(v: &Vec<i32>, j: usize, x: i32) -> (r: bool)
    requires
        j <= v@.len(),
    ensures
        r == v@.subrange(0, j as int).contains(x),
{
    let mut k: usize = 0;
    while k < j
        invariant
            k <= j <= v@.len(),
            forall|m: int| 0 <= m < k ==> v@[m] != x,
        decreases j - k,
    {
        if v[k] == x {
            assert(v@.subrange(0, j as int)[k as int] == x);
            return true;
        }
        k = k + 1;
    }
    assert(!v@.subrange(0, j as int).contains(x)) by {
        if v@.subrange(0, j as int).contains(x) {
            let m = choose|m: int| 0 <= m < j && #[trigger] v@.subrange(0, j as int)[m] == x;
            assert(v@[m] == x);
        }
    }
    false
}

proof fn lemma_weight_step(entries: Seq<(Seq<i32>, u64)>, i: int, label: i32)
    requires
        0 <= i < entries.len(),
    ensures
        label_weight(entries.subrange(0, i + 1), label) == label_weight(entries.subrange(0, i), label)
            + if entries[i].0.contains(label) { entries[i].1 as nat } else { 0nat },
{
    let s = entries.subrange(0, i + 1);
    assert(s.drop_last() =~= entries.subrange(0, i));
    assert(s.last() == entries[i]);
}

/// For each label, the summed quantity (up to the largest `u64`) of the entries
/// that carry it; an entry that lists a label twice counts once for it.
fn sum_labels(entries: &Vec<(Vec<i32>, u64)>) -> (r: Vec<(i64, u64)>)
    ensures
        unique_ids(r@),
        forall|c: i32| #[trigger] count_in(r@, c as i64) == saturated(label_weight(label_views(entries@), c)),
        forall|i: int| 0 <= i < r@.len() ==> i32::MIN <= (#[trigger] r@[i]).0 <= i32::MAX,
{
    let mut t: Vec<(i64, u64)> = Vec::new();
    let n = entries.len();
    let mut i: usize = 0;
    while i < n
        invariant
            n == entries@.len(),
            i <= n,
            unique_ids(t@),
            forall|c: i32| #[trigger] count_in(t@, c as i64) == saturated(label_weight(label_views(entries@).subrange(0, i as int), c)),
            forall|k: int| 0 <= k < t@.len() ==> i32::MIN <= (#[trigger] t@[k]).0 <= i32::MAX,
        decreases n - i,
    {
        let labels = &entries[i].0;
        let w = entries[i].1;
        let mut j: usize = 0;
        while j < labels.len()
            invariant
                n == entries@.len(),
                i < n,
                labels@ == entries@[i as int].0@,
                w == entries@[i as int].1,
                j <= labels@.len(),
                unique_ids(t@),
                forall|c: i32| #[trigger] count_in(t@, c as i64) == saturated(
                    label_weight(label_views(entries@).subrange(0, i as int), c) + if labels@.subrange(0, j as int).contains(c) {
                        w as nat
                    } else {
                        0nat
                    },
                ),
                forall|k: int| 0 <= k < t@.len() ==> i32::MIN <= (#[trigger] t@[k]).0 <= i32::MAX,
            decreases labels@.len() - j,
        {
            let c = labels[j];
            let seen = label_before(labels, j, c);
            proof {
                assert forall|d: i32| labels@.subrange(0, j + 1).contains(d) == (labels@.subrange(0, j as int).contains(d) || d == c) by {
                    if labels@.subrange(0, j + 1).contains(d) {
                        let m = choose|m: int| 0 <= m < j + 1 && #[trigger] labels@.subrange(0, j + 1)[m] == d;
                        if m < j {
                            assert(labels@.subrange(0, j as int)[m] == d);
                        }
                    }
                    if labels@.subrange(0, j as int).contains(d) {
                        let m = choose|m: int| 0 <= m < j && #[trigger] labels@.subrange(0, j as int)[m] == d;
                        assert(labels@.subrange(0, j + 1)[m] == d);
                    }
                    if d == c {
                        assert(labels@.subrange(0, j + 1)[j as int] == d);
                    }
                }
            }
            if !seen {
                let ghost before = t@;
                credit(&mut t, c as i64, w);
                proof {
                    assert forall|k: int| 0 <= k < t@.len() implies i32::MIN <= (#[trigger] t@[k]).0 <= i32::MAX by {
                        if t@[k].0 != c as i64 {
                            let m = choose|m: int| 0 <= m < before.len() && before[m].0 == t@[k].0;
                            assert(i32::MIN <= before[m].0 <= i32::MAX);
                        }
                    }
                    assert forall|d: i32| #[trigger] count_in(t@, d as i64) == saturated(
                        label_weight(label_views(entries@).subrange(0, i as int), d) + if labels@.subrange(0, j + 1).contains(d) {
                            w as nat
                        } else {
                            0nat
                        },
                    ) by {
                        assert(count_in(before, d as i64) == saturated(
                            label_weight(label_views(entries@).subrange(0, i as int), d) + if labels@.subrange(0, j as int).contains(d) {
                                w as nat
                            } else {
                                0nat
                            },
                        ));
                    }
                }
            }
            j = j + 1;
        }
        proof {
            assert(labels@.subrange(0, labels@.len() as int) =~= labels@);
            assert forall|c: i32| #[trigger] count_in(t@, c as i64) == saturated(label_weight(label_views(entries@).subrange(0, i + 1), c)) by {
                lemma_weight_step(label_views(entries@), i as int, c);
            }
        }
        i = i + 1;
    }
    proof {
        assert(label_views(entries@).subrange(0, n as int) =~= label_views(entries@));
    }
    t
}

/// A label that a frequency table may list: it has a title, and some entry
/// with a quantity carries it.
pub open spec fn is_listed_label(entries: Seq<(Seq<i32>, u64)>, titles: Seq<(i32, String)>, c: i32) -> bool {
    label_weight(entries, c) > 0 && title_of(titles, c) is Some
}

/// The ranking entry of a label: its id and its summed quantity.
pub open spec fn label_entry(entries: Seq<(Seq<i32>, u64)>, c: i32) -> (i64, u64) {
    (c as i64, saturated(label_weight(entries, c)) as u64)
}

/// `r` is the frequency table of the labels over `entries`: the labels that
/// have a title in `titles` and a summed quantity that is not zero, the largest
/// sums first (between equal sums the smaller id), at most `limit` of them, each
/// with its title and its sum (up to the largest `u64`).
pub open spec fn frequency_table(r: Seq<Frequency>, entries: Seq<(Seq<i32>, u64)>, titles: Seq<(i32, String)>, limit: nat) -> bool {
    &&& r.len() <= limit
    &&& forall|i: int| 0 <= i < r.len() ==> {
        &&& is_listed_label(entries, titles, (#[trigger] r[i]).id)
        &&& r[i].quantity == saturated(label_weight(entries, r[i].id))
        &&& title_of(titles, r[i].id) == Some(r[i].title@)
    }
    &&& forall|i: int, j: int| 0 <= i < j < r.len() ==> ranks_before(
        label_entry(entries, (#[trigger] r[i]).id),
        label_entry(entries, (#[trigger] r[j]).id),
    )
    &&& forall|c: i32| is_listed_label(entries, titles, c) && !(exists|i: int| 0 <= i < r.len() && (#[trigger] r[i]).id == c)
        ==> r.len() == limit && forall|i: int| 0 <= i < r.len() ==> ranks_before(
            label_entry(entries, (#[trigger] r[i]).id),
            label_entry(entries, c),
        )
}

/// The frequency table of labels (tags or services) over `entries`, each the
/// labels of a counterparty and its quantity: the labels that have a title in
/// `titles` and a summed quantity that is not zero, the largest sums first
/// (between equal sums the smaller id), at most `limit` of them. A sum that
/// passes the largest `u64` stands as that value.
pub fn top_frequencies(entries: &Vec<(Vec<i32>, u64)>, titles: &Vec<(i32, String)>, limit: usize) -> (r: Vec<Frequency>)
    ensures
        frequency_table(r@, label_views(entries@), titles@, limit as nat),
{
    let sums = sum_labels(entries);
    let mut cands: Vec<(i64, u64)> = Vec::new();
    let mut i: usize = 0;
    while i < sums.len()
        invariant
            i <= sums@.len(),
            unique_ids(sums@),
            forall|c: i32| #[trigger] count_in(sums@, c as i64) == saturated(label_weight(label_views(entries@), c)),
            forall|k: int| 0 <= k < sums@.len() ==> i32::MIN <= (#[trigger] sums@[k]).0 <= i32::MAX,
            unique_ids(cands@),
            forall|x: (i64, u64)| cands@.contains(x) <==> (exists|m: int| 0 <= m < i && #[trigger] sums@[m] == x)
                && x.1 > 0 && title_of(titles@, x.0 as i32) is Some,
            forall|k: int| 0 <= k < cands@.len() ==> i32::MIN <= (#[trigger] cands@[k]).0 <= i32::MAX,
        decreases sums@.len() - i,
    {
        let x = sums[i];
        if x.1 > 0 {
            let found = find_title(titles, x.0 as i32);
            if found.is_some() {
                let ghost before = cands@;
                proof {
                    assert forall|k: int| 0 <= k < before.len() implies (#[trigger] before[k]).0 != x.0 by {
                        assert(before.contains(before[k]));
                        let m = choose|m: int| 0 <= m < i && #[trigger] sums@[m] == before[k];
                    }
                }
                cands.push(x);
                proof {
                    assert forall|y: (i64, u64)| cands@.contains(y) <==> (exists|m: int| 0 <= m < i + 1 && #[trigger] sums@[m] == y)
                        && y.1 > 0 && title_of(titles@, y.0 as i32) is Some by {
                        if cands@.contains(y) {
                            let k = choose|k: int| 0 <= k < cands@.len() && cands@[k] == y;
                            if k < before.len() {
                                assert(before.contains(y));
                            } else {
                                assert(sums@[i as int] == y);
                            }
                        }
                        if (exists|m: int| 0 <= m < i + 1 && #[trigger] sums@[m] == y) && y.1 > 0 && title_of(titles@, y.0 as i32) is Some {
                            let m = choose|m: int| 0 <= m < i + 1 && #[trigger] sums@[m] == y;
                            if m < i {
                                assert(before.contains(y));
                                let k = choose|k: int| 0 <= k < before.len() && before[k] == y;
                                assert(cands@[k] == y);
                            } else {
                                assert(cands@[before.len() as int] == y);
                            }
                        }
                    }
                }
            } else {
                proof {
                    assert forall|y: (i64, u64)| cands@.contains(y) <==> (exists|m: int| 0 <= m < i + 1 && #[trigger] sums@[m] == y)
                        && y.1 > 0 && title_of(titles@, y.0 as i32) is Some by {
                        if (exists|m: int| 0 <= m < i + 1 && #[trigger] sums@[m] == y) && y.1 > 0 && title_of(titles@, y.0 as i32) is Some {
                            let m = choose|m: int| 0 <= m < i + 1 && #[trigger] sums@[m] == y;
                            if m == i {
                                assert(false);
                            }
                        }
                    }
                }
            }
        }
        i = i + 1;
    }
    let ranked = rank(&cands);
    let take = if limit < ranked.len() { limit } else { ranked.len() };
    let mut r: Vec<Frequency> = Vec::new();
    let mut p: usize = 0;
    while p < take
        invariant
            p <= take <= ranked@.len(),
            take <= limit,
            take == limit || take == ranked@.len(),
            r@.len() == p,
            forall|x: (i64, u64)| ranked@.contains(x) <==> cands@.contains(x),
            crate::relation::is_ranked(ranked@),
            forall|c: i32| #[trigger] count_in(sums@, c as i64) == saturated(label_weight(label_views(entries@), c)),
            unique_ids(sums@),
            forall|x: (i64, u64)| cands@.contains(x) <==> (exists|m: int| 0 <= m < sums@.len() && #[trigger] sums@[m] == x)
                && x.1 > 0 && title_of(titles@, x.0 as i32) is Some,
            forall|k: int| 0 <= k < cands@.len() ==> i32::MIN <= (#[trigger] cands@[k]).0 <= i32::MAX,
            forall|k: int| 0 <= k < p ==> label_entry(label_views(entries@), (#[trigger] r@[k]).id) == ranked@[k] && {
                &&& is_listed_label(label_views(entries@), titles@, r@[k].id)
                &&& r@[k].quantity == saturated(label_weight(label_views(entries@), r@[k].id))
                &&& title_of(titles@, r@[k].id) == Some(r@[k].title@)
            },
        decreases take - p,
    {
        let x = ranked[p];
        proof {
            assert(ranked@.contains(x));
            assert(cands@.contains(x));
            let k = choose|k: int| 0 <= k < cands@.len() && cands@[k] == x;
            assert(i32::MIN <= cands@[k].0 <= i32::MAX);
            let m = choose|m: int| 0 <= m < sums@.len() && #[trigger] sums@[m] == x;
            crate::relation::lemma_count_in_index(sums@, m);
            assert(count_in(sums@, (x.0 as i32) as i64) == x.1);
        }
        let id = x.0 as i32;
        let title = find_title(titles, id);
        let title = match title {
            Some(t) => t,
            None => {
                proof {
                    assert(false);
                }
                String::new()
            },
        };
        r.push(Frequency { id, title, quantity: x.1 });
        p = p + 1;
    }
    proof {
        assert forall|c: i32| is_listed_label(label_views(entries@), titles@, c) && !(exists|i: int| 0 <= i < r@.len() && (#[trigger] r@[i]).id == c)
            implies r@.len() == limit && forall|i: int| 0 <= i < r@.len() ==> ranks_before(
                label_entry(label_views(entries@), (#[trigger] r@[i]).id),
                label_entry(label_views(entries@), c),
            ) by {
            let e = label_entry(label_views(entries@), c);
            assert(count_in(sums@, c as i64) > 0);
            crate::relation::lemma_count_in_found(sums@, c as i64);
            let m = choose|m: int| 0 <= m < sums@.len() && sums@[m] == (c as i64, count_in(sums@, c as i64) as u64);
            assert(sums@[m] == e);
            assert(cands@.contains(e));
            assert(ranked@.contains(e));
            let q = choose|q: int| 0 <= q < ranked@.len() && ranked@[q] == e;
            if q < take {
                assert(label_entry(label_views(entries@), r@[q].id) == e);
                assert(r@[q].id == c);
                assert(false);
            }
            assert forall|i: int| 0 <= i < r@.len() implies ranks_before(
                label_entry(label_views(entries@), (#[trigger] r@[i]).id),
                label_entry(label_views(entries@), c),
            ) by {
                assert(ranks_before(ranked@[i], ranked@[q]));
            }
        }
        assert forall|i: int, j: int| 0 <= i < j < r@.len() implies ranks_before(
            label_entry(label_views(entries@), (#[trigger] r@[i]).id),
            label_entry(label_views(entries@), (#[trigger] r@[j]).id),
        ) by {
            assert(ranks_before(ranked@[i], ranked@[j]));
        }
    }
    r
}

} // verus!
