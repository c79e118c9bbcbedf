//! Counterparty lists with what the catalogue knows of each address.

use vstd::prelude::*;
use crate::frequency::{title_of, find_title};
use crate::hexcode::{hex_text_of, bytes_to_hex};
use crate::model::{AddressRef, AddressRefHuman, PrivAddress};
use crate::numbers::{decimal_text, i32_text};
use crate::frequency::{frequency_table, label_views, top_frequencies};
use crate::model::AddressRelationHuman;
use crate::relation::{
    Links, counted_relation, is_ranked, lemma_counted_unique, lemma_ranked_unique, link_views, process_query, rank,
    unique_ids,
};
use crate::store::FREQUENCY_LIMIT;

verus! {

/// What `dir` holds for the address `id`: the first entry listed for it.
pub open spec fn entry_of(dir: Seq<(i64, PrivAddress)>, id: i64) -> Option<PrivAddress>
    decreases dir.len(),
{
    if dir.len() == 0 {
        None
    } else if dir[0].0 == id {
        Some(dir[0].1)
    } else {
        entry_of(dir.subrange(1, dir.len() as int), id)
    }
}

/// The position of the entry that `dir` holds for `id`.
pub fn find_entry(dir: &Vec<(i64, PrivAddress)>, id: i64) -> (r: Option<usize>)
    ensures
        r matches Some(k) ==> k < dir@.len() && entry_of(dir@, id) == Some(dir@[k as int].1),
        r is None ==> entry_of(dir@, id) is None,
{
    let mut k: usize = 0;
    assert(dir@.subrange(0, dir@.len() as int) =~= dir@);
    while k < dir.len()
        invariant
            k <= dir@.len(),
            entry_of(dir@.subrange(k as int, dir@.len() as int), id) == entry_of(dir@, id),
        decreases dir@.len() - k,
    {
        let ghost rest = dir@.subrange(k as int, dir@.len() as int);
        proof {
            assert(rest[0] == dir@[k as int]);
            assert(rest.subrange(1, rest.len() as int) =~= dir@.subrange(k + 1, dir@.len() as int));
        }
        if dir[k].0 == id {
            return Some(k);
        }
        k = k + 1;
    }
    None
}

/// The title an address is shown with: its own, or its hash in hexadecimal.
pub open spec fn title_or_hex(title: Option<String>, hash: Seq<u8>) -> Seq<char> {
    match title {
        Some(t) => t@,
        None => hex_text_of(hash),
    }
}

/// The title an address is shown with: its own, or its hash in hexadecimal.
pub fn shown_title(title: &Option<String>, hash: &Vec<u8>) -> (r: String)
    ensures
        r@ == title_or_hex(*title, hash@),
{
    match title {
        Some(t) => t.clone(),
        None => bytes_to_hex(hash),
    }
}

/// The text shown for a tag or service: its title, or its id in decimal where
/// it has none.
pub open spec fn label_text(titles: Seq<(i32, String)>, id: i32) -> Seq<char> {
    match title_of(titles, id) {
        Some(t) => t,
        None => decimal_text(id as int),
    }
}

/// The text shown for each of `labels`.
pub fn label_texts(labels: &Vec<i32>, titles: &Vec<(i32, String)>) -> (r: Vec<String>)
    ensures
        r@.len() == labels@.len(),
        forall|k: int| 0 <= k < r@.len() ==> (#[trigger] r@[k])@ == label_text(titles@, labels@[k]),
{
    let mut r: Vec<String> = Vec::new();
    let mut k: usize = 0;
    while k < labels.len()
        invariant
            k <= labels@.len(),
            r@.len() == k,
            forall|m: int| 0 <= m < k ==> (#[trigger] r@[m])@ == label_text(titles@, labels@[m]),
        decreases labels@.len() - k,
    {
        let text = match find_title(titles, labels[k]) {
            Some(t) => t,
            None => i32_text(labels[k]),
        };
        r.push(text);
        k = k + 1;
    }
    r
}

/// `r` describes the counted address `x` from what `dir` holds: its hash in
/// hexadecimal, its title, and its tags and services by id. An address that
/// `dir` lacks keeps only its id and count.
pub open spec fn describes(r: AddressRef, x: (i64, u64), dir: Seq<(i64, PrivAddress)>) -> bool {
    &&& r.id == x.0
    &&& r.quantity == x.1
    &&& match entry_of(dir, x.0) {
        Some(p) => {
            &&& r.hex@ == hex_text_of(p.hash@)
            &&& r.human@ == p.title@
            &&& r.tags@ == p.tags@
            &&& r.services@ == p.services@
        },
        None => r.hex@.len() == 0 && r.human@.len() == 0 && r.tags@.len() == 0 && r.services@.len() == 0,
    }
}

/// `r` describes the counted address `x` from what `dir` holds, with the texts
/// of its tags and services.
pub open spec fn describes_human(
    r: AddressRefHuman,
    x: (i64, u64),
    dir: Seq<(i64, PrivAddress)>,
    tag_titles: Seq<(i32, String)>,
    service_titles: Seq<(i32, String)>,
) -> bool {
    &&& r.id == x.0
    &&& r.quantity == x.1
    &&& match entry_of(dir, x.0) {
        Some(p) => {
            &&& r.hex@ == hex_text_of(p.hash@)
            &&& r.human@ == p.title@
            &&& r.tags@.len() == p.tags@.len()
            &&& forall|k: int| 0 <= k < r.tags@.len() ==> (#[trigger] r.tags@[k])@ == label_text(tag_titles, p.tags@[k])
            &&& r.services@.len() == p.services@.len()
            &&& forall|k: int| 0 <= k < r.services@.len() ==> (#[trigger] r.services@[k])@ == label_text(service_titles, p.services@[k])
        },
        None => r.hex@.len() == 0 && r.human@.len() == 0 && r.tags@.len() == 0 && r.services@.len() == 0,
    }
}

/// The id and count of each entry of a counterparty list.
pub open spec fn ref_counts(list: Seq<AddressRefHuman>) -> Seq<(i64, u64)> {
    list.map_values(|r: AddressRefHuman| (r.id, r.quantity))
}

/// The id and count of each entry of a counterparty list.
pub open spec fn ref_id_counts(list: Seq<AddressRef>) -> Seq<(i64, u64)> {
    list.map_values(|r: AddressRef| (r.id, r.quantity))
}

/// Each counted address of `counted`, ranked by count (largest first, then
/// smaller id), with its hash, title, tag ids and service ids.
pub fn address_ref(dir: &Vec<(i64, PrivAddress)>, counted: &Vec<(i64, u64)>) -> (r: Vec<AddressRef>)
    requires
        unique_ids(counted@),
    ensures
        r@.len() == counted@.len(),
        is_ranked(ref_id_counts(r@)),
        forall|x: (i64, u64)| ref_id_counts(r@).contains(x) <==> counted@.contains(x),
        forall|i: int| 0 <= i < r@.len() ==> describes(#[trigger] r@[i], (r@[i].id, r@[i].quantity), dir@),
{
    let counted = rank(counted);
    let mut r: Vec<AddressRef> = Vec::new();
    let mut i: usize = 0;
    while i < counted.len()
        invariant
            i <= counted@.len(),
            r@.len() == i,
            forall|m: int| 0 <= m < i ==> describes(#[trigger] r@[m], counted@[m], dir@),
        decreases counted@.len() - i,
    {
        let (id, quantity) = counted[i];
        let item = match find_entry(dir, id) {
            Some(k) => {
                let p = &dir[k].1;
                AddressRef {
                    id,
                    hex: bytes_to_hex(&p.hash),
                    human: p.title.clone(),
                    quantity,
                    tags: p.tags.clone(),
                    services: p.services.clone(),
                }
            },
            None => AddressRef {
                id,
                hex: String::new(),
                human: String::new(),
                quantity,
                tags: Vec::new(),
                services: Vec::new(),
            },
        };
        r.push(item);
        i = i + 1;
    }
    proof {
        assert(ref_id_counts(r@) =~= counted@);
    }
    r
}

/// Each counted address of `counted`, ranked by count (largest first, then
/// smaller id), with its hash, title, and the texts of its tags and services.
pub fn address_ref_human(
    dir: &Vec<(i64, PrivAddress)>,
    tag_titles: &Vec<(i32, String)>,
    service_titles: &Vec<(i32, String)>,
    counted: &Vec<(i64, u64)>,
) -> (r: Vec<AddressRefHuman>)
    requires
        unique_ids(counted@),
    ensures
        r@.len() == counted@.len(),
        is_ranked(ref_counts(r@)),
        forall|x: (i64, u64)| ref_counts(r@).contains(x) <==> counted@.contains(x),
        forall|i: int| 0 <= i < r@.len() ==> describes_human(#[trigger] r@[i], (r@[i].id, r@[i].quantity), dir@, tag_titles@, service_titles@),
{
    let counted = rank(counted);
    let mut r: Vec<AddressRefHuman> = Vec::new();
    let mut i: usize = 0;
    while i < counted.len()
        invariant
            i <= counted@.len(),
            r@.len() == i,
            forall|m: int| 0 <= m < i ==> describes_human(#[trigger] r@[m], counted@[m], dir@, tag_titles@, service_titles@),
        decreases counted@.len() - i,
    {
        let (id, quantity) = counted[i];
        let item = match find_entry(dir, id) {
            Some(k) => {
                let p = &dir[k].1;
                AddressRefHuman {
                    id,
                    hex: bytes_to_hex(&p.hash),
                    human: p.title.clone(),
                    quantity,
                    tags: label_texts(&p.tags, tag_titles),
                    services: label_texts(&p.services, service_titles),
                }
            },
            None => AddressRefHuman {
                id,
                hex: String::new(),
                human: String::new(),
                quantity,
                tags: Vec::new(),
                services: Vec::new(),
            },
        };
        r.push(item);
        i = i + 1;
    }
    proof {
        assert(ref_counts(r@) =~= counted@);
    }
    r
}

/// The services (`true`) or tags that `dir` holds for the address `id`; none
/// where `dir` lacks it.
pub open spec fn dir_labels(dir: Seq<(i64, PrivAddress)>, id: i64, services: bool) -> Seq<i32> {
    match entry_of(dir, id) {
        Some(p) => if services {
            p.services@
        } else {
            p.tags@
        },
        None => Seq::empty(),
    }
}

/// For each counted address, its services (`true`) or tags from `dir`, with
/// its count.
pub open spec fn dir_weight_entries(counts: Seq<(i64, u64)>, dir: Seq<(i64, PrivAddress)>, services: bool) -> Seq<(Seq<i32>, u64)> {
    counts.map_values(|x: (i64, u64)| (dir_labels(dir, x.0, services), x.1))
}

/// `rel` is the relation of the address `a` over the transactions `rows`,
/// each address shown from what `dir` holds: the four ranked counterparty
/// lists, and the frequency tables of their tags and services.
pub open spec fn assembled_relation(
    rel: AddressRelationHuman,
    rows: Seq<(Seq<i64>, Seq<i64>)>,
    a: i64,
    dir: Seq<(i64, PrivAddress)>,
    tag_titles: Seq<(i32, String)>,
    service_titles: Seq<(i32, String)>,
) -> bool {
    let all = ref_counts(rel.inputs@) + ref_counts(rel.outputs@) + ref_counts(rel.mixed_in@) + ref_counts(
        rel.mixed_out@,
    );
    &&& rel.id == a
    &&& match entry_of(dir, a) {
        Some(p) => rel.hex@ == hex_text_of(p.hash@) && rel.human@ == p.title@,
        None => rel.hex@.len() == 0 && rel.human@.len() == 0,
    }
    &&& counted_relation(ref_counts(rel.inputs@), rows, a, false, true)
    &&& counted_relation(ref_counts(rel.outputs@), rows, a, true, false)
    &&& counted_relation(ref_counts(rel.mixed_in@), rows, a, true, true)
    &&& counted_relation(ref_counts(rel.mixed_out@), rows, a, false, false)
    &&& forall|i: int| 0 <= i < rel.inputs@.len() ==> describes_human(#[trigger] rel.inputs@[i], (rel.inputs@[i].id, rel.inputs@[i].quantity), dir, tag_titles, service_titles)
    &&& forall|i: int| 0 <= i < rel.outputs@.len() ==> describes_human(#[trigger] rel.outputs@[i], (rel.outputs@[i].id, rel.outputs@[i].quantity), dir, tag_titles, service_titles)
    &&& forall|i: int| 0 <= i < rel.mixed_in@.len() ==> describes_human(#[trigger] rel.mixed_in@[i], (rel.mixed_in@[i].id, rel.mixed_in@[i].quantity), dir, tag_titles, service_titles)
    &&& forall|i: int| 0 <= i < rel.mixed_out@.len() ==> describes_human(#[trigger] rel.mixed_out@[i], (rel.mixed_out@[i].id, rel.mixed_out@[i].quantity), dir, tag_titles, service_titles)
    &&& frequency_table(rel.tags@, dir_weight_entries(all, dir, false), tag_titles, FREQUENCY_LIMIT as nat)
    &&& frequency_table(rel.services@, dir_weight_entries(all, dir, true), service_titles, FREQUENCY_LIMIT as nat)
}

/// Appends, for each address of `counted`, its services (`true`) or tags from
/// `dir` with its count.
fn add_dir_weights(out: &mut Vec<(Vec<i32>, u64)>, dir: &Vec<(i64, PrivAddress)>, counted: &Vec<(i64, u64)>, services: bool)
    ensures
        label_views(final(out)@) == label_views(old(out)@) + dir_weight_entries(counted@, dir@, services),
{
    let ghost start = label_views(out@);
    let mut i: usize = 0;
    while i < counted.len()
        invariant
            i <= counted@.len(),
            label_views(out@) == start + dir_weight_entries(counted@.subrange(0, i as int), dir@, services),
        decreases counted@.len() - i,
    {
        let (id, q) = counted[i];
        let labels = match find_entry(dir, id) {
            Some(k) => if services {
                dir[k].1.services.clone()
            } else {
                dir[k].1.tags.clone()
            },
            None => Vec::new(),
        };
        let ghost before = out@;
        out.push((labels, q));
        proof {
            assert(label_views(out@) =~= label_views(before).push((labels@, q)));
            assert(counted@.subrange(0, i + 1) =~= counted@.subrange(0, i as int).push(counted@[i as int]));
            assert(labels@ =~= dir_labels(dir@, id, services));
            assert(dir_weight_entries(counted@.subrange(0, i + 1), dir@, services) =~= dir_weight_entries(
                counted@.subrange(0, i as int),
                dir@,
                services,
            ).push((labels@, q)));
        }
        i = i + 1;
    }
    proof {
        assert(counted@.subrange(0, counted@.len() as int) =~= counted@);
    }
}

/// The relation of the address `a` over the transactions `rows` that name it,
/// each address shown from what `dir` holds, with the tag and service titles:
/// the four ranked counterparty lists and the ten most frequent tags and
/// services among them.
pub fn relation_from_links(
    a: i64,
    rows: &Vec<Links>,
    dir: &Vec<(i64, PrivAddress)>,
    tag_titles: &Vec<(i32, String)>,
    service_titles: &Vec<(i32, String)>,
) -> (r: AddressRelationHuman)
    ensures
        assembled_relation(r, link_views(rows@), a, dir@, tag_titles@, service_titles@),
{
    let counts = process_query(rows, a);
    proof {
        lemma_counted_unique(counts.inputs@, link_views(rows@), a, false, true);
        lemma_counted_unique(counts.outputs@, link_views(rows@), a, true, false);
        lemma_counted_unique(counts.mixed_in@, link_views(rows@), a, true, true);
        lemma_counted_unique(counts.mixed_out@, link_views(rows@), a, false, false);
    }
    let inputs = address_ref_human(dir, tag_titles, service_titles, &counts.inputs);
    let outputs = address_ref_human(dir, tag_titles, service_titles, &counts.outputs);
    let mixed_in = address_ref_human(dir, tag_titles, service_titles, &counts.mixed_in);
    let mixed_out = address_ref_human(dir, tag_titles, service_titles, &counts.mixed_out);
    let mut tag_entries: Vec<(Vec<i32>, u64)> = Vec::new();
    add_dir_weights(&mut tag_entries, dir, &counts.inputs, false);
    add_dir_weights(&mut tag_entries, dir, &counts.outputs, false);
    add_dir_weights(&mut tag_entries, dir, &counts.mixed_in, false);
    add_dir_weights(&mut tag_entries, dir, &counts.mixed_out, false);
    let mut service_entries: Vec<(Vec<i32>, u64)> = Vec::new();
    add_dir_weights(&mut service_entries, dir, &counts.inputs, true);
    add_dir_weights(&mut service_entries, dir, &counts.outputs, true);
    add_dir_weights(&mut service_entries, dir, &counts.mixed_in, true);
    add_dir_weights(&mut service_entries, dir, &counts.mixed_out, true);
    let tags = top_frequencies(&tag_entries, tag_titles, FREQUENCY_LIMIT);
    let services = top_frequencies(&service_entries, service_titles, FREQUENCY_LIMIT);
    let (hex, human) = match find_entry(dir, a) {
        Some(k) => (bytes_to_hex(&dir[k].1.hash), dir[k].1.title.clone()),
        None => (String::new(), String::new()),
    };
    let rel = AddressRelationHuman { id: a, hex, human, inputs, outputs, mixed_in, mixed_out, tags, services };
    proof {
        lemma_ranked_unique(ref_counts(rel.inputs@), counts.inputs@);
        lemma_ranked_unique(ref_counts(rel.outputs@), counts.outputs@);
        lemma_ranked_unique(ref_counts(rel.mixed_in@), counts.mixed_in@);
        lemma_ranked_unique(ref_counts(rel.mixed_out@), counts.mixed_out@);
        let all = counts.inputs@ + counts.outputs@ + counts.mixed_in@ + counts.mixed_out@;
        assert(dir_weight_entries(all, dir@, false) =~= dir_weight_entries(counts.inputs@, dir@, false)
            + dir_weight_entries(counts.outputs@, dir@, false) + dir_weight_entries(counts.mixed_in@, dir@, false)
            + dir_weight_entries(counts.mixed_out@, dir@, false));
        assert(dir_weight_entries(all, dir@, true) =~= dir_weight_entries(counts.inputs@, dir@, true)
            + dir_weight_entries(counts.outputs@, dir@, true) + dir_weight_entries(counts.mixed_in@, dir@, true)
            + dir_weight_entries(counts.mixed_out@, dir@, true));
        assert(label_views(tag_entries@) =~= dir_weight_entries(all, dir@, false));
        assert(label_views(service_entries@) =~= dir_weight_entries(all, dir@, true));
    }
    rel
}

} // verus!
