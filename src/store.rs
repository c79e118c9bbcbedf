//! The address and transaction tables, held in memory: addresses unique by
//! chain and hash, transactions unique by chain and hash, ids given in order
//! from one.

use vstd::prelude::*;
use crate::ingest::{TxInput, TransactionDraft, id_for, ascending, lookup_id, resolve_side, resolves_to};
use crate::describe::{address_ref, address_ref_human, entry_of, label_text, describes, describes_human, ref_counts, ref_id_counts, shown_title, title_or_hex};
use crate::frequency::{Frequency, frequency_table, label_views, top_frequencies};
use crate::hexcode::{hex_text_of, hex_bytes_of, is_hex_text, without_hex_prefix, bytes_to_hex, decode_address_hex};
use crate::model::{DirectionOfInteraction, AddressRef, AddressRefHuman, AddressRelation, AddressRelationHuman, PrivAddress};
use crate::cardano::{CardanoBlock, CardanoInput, CardanoTx, address_bytes, address_to_bytes};
use crate::ingest::{insert_ascending, push_new};
use crate::hexcode::decode_hex;
use crate::relation::{Links, counted_relation, link_views, pair_count, process_query, side};

verus! {

/// A row of the address table.
pub struct AddressRecord {
    pub id: i64,
    pub chain: i32,
    pub hash: Vec<u8>,
    pub title: Option<String>,
    pub services: Vec<i32>,
    pub tags: Vec<i32>,
}

/// A row of the transaction table: the ids of its senders and receivers.
pub struct TransactionRecord {
    pub id: i64,
    pub chain: i32,
    pub hash: Vec<u8>,
    pub amount: Option<u128>,
    pub from: Vec<i64>,
    pub to: Vec<i64>,
}

/// The address and transaction tables, with the titles of tags and services.
pub struct Store {
    addresses: Vec<AddressRecord>,
    transactions: Vec<TransactionRecord>,
    tag_titles: Vec<(i32, String)>,
    service_titles: Vec<(i32, String)>,
}

/// The key of each address row: its chain and hash.
pub open spec fn address_keys(rows: Seq<AddressRecord>) -> Seq<(i32, Seq<u8>)> {
    rows.map_values(|r: AddressRecord| (r.chain, r.hash@))
}

/// The key of each transaction row: its chain and hash.
pub open spec fn transaction_keys(rows: Seq<TransactionRecord>) -> Seq<(i32, Seq<u8>)> {
    rows.map_values(|r: TransactionRecord| (r.chain, r.hash@))
}

/// The byte strings of a list of hashes.
pub open spec fn hash_views(hs: Seq<Vec<u8>>) -> Seq<Seq<u8>> {
    hs.map_values(|h: Vec<u8>| h@)
}

/// The address keys after adding, one after the other, each hash of `hs` on
/// `chain` that is not there yet.
pub open spec fn ensured(keys: Seq<(i32, Seq<u8>)>, chain: i32, hs: Seq<Seq<u8>>) -> Seq<(i32, Seq<u8>)>
    decreases hs.len(),
{
    if hs.len() == 0 {
        keys
    } else {
        let k = ensured(keys, chain, hs.drop_last());
        if k.contains((chain, hs.last())) {
            k
        } else {
            k.push((chain, hs.last()))
        }
    }
}

/// The id of the address row with this chain and hash, if there is one.
pub open spec fn address_id(rows: Seq<AddressRecord>, chain: i32, h: Seq<u8>) -> Option<i64>
    decreases rows.len(),
{
    if rows.len() == 0 {
        None
    } else if rows.last().chain == chain && rows.last().hash@ == h {
        Some(rows.last().id)
    } else {
        address_id(rows.drop_last(), chain, h)
    }
}

/// Ids run from one in the order of the rows, and keys are unique.
pub open spec fn addresses_wf(rows: Seq<AddressRecord>) -> bool {
    &&& rows.len() < i64::MAX
    &&& forall|i: int| 0 <= i < rows.len() ==> (#[trigger] rows[i]).id == i + 1
    &&& address_keys(rows).no_duplicates()
}

/// Ids run from one in the order of the rows, keys are unique, and every
/// sender and receiver is the id of an address row.
pub open spec fn transactions_wf(rows: Seq<TransactionRecord>, n_addresses: int) -> bool {
    &&& rows.len() < i64::MAX
    &&& forall|i: int| 0 <= i < rows.len() ==> (#[trigger] rows[i]).id == i + 1
    &&& transaction_keys(rows).no_duplicates()
    &&& forall|i: int, k: int| 0 <= i < rows.len() && 0 <= k < rows[i].from@.len() ==>
        1 <= #[trigger] rows[i].from@[k] <= n_addresses
    &&& forall|i: int, k: int| 0 <= i < rows.len() && 0 <= k < rows[i].to@.len() ==>
        1 <= #[trigger] rows[i].to@[k] <= n_addresses
}

/// Whether two byte strings are equal.
pub fn same_bytes(a: &Vec<u8>, b: &Vec<u8>) -> (r: bool)
    ensures
        r == (a@ == b@),
{
    if a.len() != b.len() {
        return false;
    }
    let mut k: usize = 0;
    while k < a.len()
        invariant
            k <= a@.len(),
            a@.len() == b@.len(),
            forall|m: int| 0 <= m < k ==> a@[m] == b@[m],
        decreases a@.len() - k,
    {
        if a[k] != b[k] {
            return false;
        }
        k = k + 1;
    }
    assert(a@ =~= b@);
    true
}

proof fn lemma_address_id_key(rows: Seq<AddressRecord>, chain: i32, h: Seq<u8>)
    requires
        forall|i: int| 0 <= i < rows.len() ==> (#[trigger] rows[i]).id == i + 1,
    ensures
        address_id(rows, chain, h) is Some <==> address_keys(rows).contains((chain, h)),
        address_id(rows, chain, h) matches Some(x) ==> 1 <= x <= rows.len() && rows[x - 1].chain == chain
            && rows[x - 1].hash@ == h,
    decreases rows.len(),
{
    if rows.len() > 0 {
        let s = rows.drop_last();
        assert forall|i: int| 0 <= i < s.len() implies (#[trigger] s[i]).id == i + 1 by {
            assert(s[i] == rows[i]);
        }
        lemma_address_id_key(s, chain, h);
        assert(address_keys(s) =~= address_keys(rows).drop_last());
        if address_keys(rows).contains((chain, h)) {
            let k = choose|k: int| 0 <= k < rows.len() && address_keys(rows)[k] == (chain, h);
            if k < rows.len() - 1 {
                assert(address_keys(s)[k] == (chain, h));
            }
        }
        if address_keys(s).contains((chain, h)) {
            let k = choose|k: int| 0 <= k < s.len() && address_keys(s)[k] == (chain, h);
            assert(address_keys(rows)[k] == (chain, h));
        }
        if rows.last().chain == chain && rows.last().hash@ == h {
            assert(address_keys(rows)[rows.len() - 1] == (chain, h));
        }
    }
}

/// The hash of each transaction.
pub open spec fn input_hashes(txs: Seq<TxInput>) -> Seq<Seq<u8>> {
    txs.map_values(|t: TxInput| t.hash@)
}

/// The transactions of `txs` that a store with the transaction keys `stored`
/// lacks on `chain`, in order, each hash once: the first with it.
pub open spec fn fresh_inputs(stored: Seq<(i32, Seq<u8>)>, chain: i32, txs: Seq<TxInput>) -> Seq<TxInput>
    decreases txs.len(),
{
    if txs.len() == 0 {
        Seq::empty()
    } else {
        let prev = fresh_inputs(stored, chain, txs.drop_last());
        let t = txs.last();
        if stored.contains((chain, t.hash@)) || input_hashes(prev).contains(t.hash@) {
            prev
        } else {
            prev.push(t)
        }
    }
}

/// Every sender and receiver hash of `txs`, in order.
pub open spec fn referenced(txs: Seq<TxInput>) -> Seq<Seq<u8>>
    decreases txs.len(),
{
    if txs.len() == 0 {
        Seq::empty()
    } else {
        referenced(txs.drop_last()) + hash_views(txs.last().from@) + hash_views(txs.last().to@)
    }
}

/// The number of sender and receiver hashes in `txs`.
pub open spec fn reference_count(txs: Seq<TxInput>) -> nat
    decreases txs.len(),
{
    if txs.len() == 0 {
        0
    } else {
        reference_count(txs.drop_last()) + txs.last().from@.len() + txs.last().to@.len()
    }
}

/// Some hash of `hs` is, on `chain`, the address with id `x`.
pub open spec fn names_address(rows: Seq<AddressRecord>, chain: i32, hs: Seq<Vec<u8>>, x: i64) -> bool {
    exists|j: int| 0 <= j < hs.len() && address_id(rows, chain, (#[trigger] hs[j])@) == Some(x)
}

/// `r` is the row of the transaction `t` on `chain`: the ids of the addresses
/// that its hashes name, ascending, each once.
pub open spec fn records_input(r: TransactionRecord, rows: Seq<AddressRecord>, chain: i32, t: TxInput) -> bool {
    &&& r.chain == chain
    &&& r.hash@ == t.hash@
    &&& r.amount == t.amount
    &&& ascending(r.from@)
    &&& ascending(r.to@)
    &&& forall|x: i64| r.from@.contains(x) <==> names_address(rows, chain, t.from@, x)
    &&& forall|x: i64| r.to@.contains(x) <==> names_address(rows, chain, t.to@, x)
}

proof fn lemma_fresh(stored: Seq<(i32, Seq<u8>)>, chain: i32, txs: Seq<TxInput>)
    ensures
        fresh_inputs(stored, chain, txs).len() <= txs.len(),
        referenced(fresh_inputs(stored, chain, txs)).len() <= reference_count(txs),
        forall|k: int| 0 <= k < fresh_inputs(stored, chain, txs).len() ==> !stored.contains(
            (chain, (#[trigger] fresh_inputs(stored, chain, txs)[k]).hash@),
        ),
        input_hashes(fresh_inputs(stored, chain, txs)).no_duplicates(),
        forall|j: int| 0 <= j < txs.len() ==> stored.contains((chain, (#[trigger] txs[j]).hash@))
            || input_hashes(fresh_inputs(stored, chain, txs)).contains(txs[j].hash@),
        (forall|j: int| 0 <= j < txs.len() ==> stored.contains((chain, (#[trigger] txs[j]).hash@)))
            ==> fresh_inputs(stored, chain, txs).len() == 0,
    decreases txs.len(),
{
    if txs.len() > 0 {
        let d = txs.drop_last();
        lemma_fresh(stored, chain, d);
        let prev = fresh_inputs(stored, chain, d);
        let t = txs.last();
        let f = fresh_inputs(stored, chain, txs);
        if !(stored.contains((chain, t.hash@)) || input_hashes(prev).contains(t.hash@)) {
            assert(input_hashes(f) =~= input_hashes(prev).push(t.hash@));
            assert(referenced(f.drop_last()) == referenced(prev)) by {
                assert(f.drop_last() =~= prev);
            }
            assert forall|j: int| 0 <= j < txs.len() implies stored.contains((chain, (#[trigger] txs[j]).hash@))
                || input_hashes(f).contains(txs[j].hash@) by {
                if j < txs.len() - 1 {
                    assert(d[j] == txs[j]);
                    if input_hashes(prev).contains(txs[j].hash@) {
                        let m = choose|m: int| 0 <= m < input_hashes(prev).len() && input_hashes(prev)[m] == txs[j].hash@;
                        assert(input_hashes(f)[m] == txs[j].hash@);
                    }
                } else {
                    assert(input_hashes(f)[prev.len() as int] == txs[j].hash@);
                }
            }
        } else {
            assert forall|j: int| 0 <= j < txs.len() implies stored.contains((chain, (#[trigger] txs[j]).hash@))
                || input_hashes(f).contains(txs[j].hash@) by {
                if j < txs.len() - 1 {
                    assert(d[j] == txs[j]);
                }
            }
        }
        if forall|j: int| 0 <= j < txs.len() ==> stored.contains((chain, (#[trigger] txs[j]).hash@)) {
            assert forall|j: int| 0 <= j < d.len() implies stored.contains((chain, (#[trigger] d[j]).hash@)) by {
                assert(d[j] == txs[j]);
            }
            assert(stored.contains((chain, txs[txs.len() - 1].hash@)));
        }
    }
}

proof fn lemma_referenced_holds(txs: Seq<TxInput>, k: int)
    requires
        0 <= k < txs.len(),
    ensures
        forall|j: int| 0 <= j < txs[k].from@.len() ==> referenced(txs).contains((#[trigger] txs[k].from@[j])@),
        forall|j: int| 0 <= j < txs[k].to@.len() ==> referenced(txs).contains((#[trigger] txs[k].to@[j])@),
    decreases txs.len(),
{
    let d = txs.drop_last();
    let t = txs.last();
    let rd = referenced(d);
    let r = referenced(txs);
    assert(r == rd + hash_views(t.from@) + hash_views(t.to@));
    if k < txs.len() - 1 {
        lemma_referenced_holds(d, k);
        assert(d[k] == txs[k]);
        assert forall|j: int| 0 <= j < txs[k].from@.len() implies r.contains((#[trigger] txs[k].from@[j])@) by {
            let m = choose|m: int| 0 <= m < rd.len() && rd[m] == txs[k].from@[j]@;
            assert(r[m] == rd[m]);
        }
        assert forall|j: int| 0 <= j < txs[k].to@.len() implies r.contains((#[trigger] txs[k].to@[j])@) by {
            let m = choose|m: int| 0 <= m < rd.len() && rd[m] == txs[k].to@[j]@;
            assert(r[m] == rd[m]);
        }
    } else {
        assert forall|j: int| 0 <= j < txs[k].from@.len() implies r.contains((#[trigger] txs[k].from@[j])@) by {
            assert(r[rd.len() + j] == txs[k].from@[j]@);
        }
        assert forall|j: int| 0 <= j < txs[k].to@.len() implies r.contains((#[trigger] txs[k].to@[j])@) by {
            assert(r[rd.len() + t.from@.len() + j] == txs[k].to@[j]@);
        }
    }
}

/// Adding addresses keeps every key that was there, and afterwards each hash
/// added is there on its chain; keys stay unique.
pub proof fn lemma_ensured(keys: Seq<(i32, Seq<u8>)>, chain: i32, hs: Seq<Seq<u8>>)
    requires
        keys.no_duplicates(),
    ensures
        ensured(keys, chain, hs).no_duplicates(),
        ensured(keys, chain, hs).len() >= keys.len(),
        ensured(keys, chain, hs).subrange(0, keys.len() as int) == keys,
        forall|j: int| 0 <= j < hs.len() ==> ensured(keys, chain, hs).contains((chain, #[trigger] hs[j])),
    decreases hs.len(),
{
    if hs.len() > 0 {
        let d = hs.drop_last();
        lemma_ensured(keys, chain, d);
        let k = ensured(keys, chain, d);
        let e = ensured(keys, chain, hs);
        assert forall|j: int| 0 <= j < hs.len() implies e.contains((chain, #[trigger] hs[j])) by {
            if j < hs.len() - 1 {
                assert(d[j] == hs[j]);
                let m = choose|m: int| 0 <= m < k.len() && k[m] == (chain, d[j]);
                assert(e[m] == k[m]);
            } else if !k.contains((chain, hs.last())) {
                assert(e[k.len() as int] == (chain, hs.last()));
            }
        }
        if !k.contains((chain, hs.last())) {
            assert(e.subrange(0, keys.len() as int) =~= k.subrange(0, keys.len() as int));
        }
    }
}

/// Ensuring one address twice, as two callers racing for it do, leaves
/// exactly one row with its chain and hash.
pub proof fn ensure_twice_keeps_one_row(keys: Seq<(i32, Seq<u8>)>, chain: i32, h: Seq<u8>)
    requires
        keys.no_duplicates(),
    ensures
        ({
            let twice = ensured(ensured(keys, chain, seq![h]), chain, seq![h]);
            &&& twice.contains((chain, h))
            &&& forall|i: int, j: int| 0 <= i < twice.len() && 0 <= j < twice.len() && twice[i] == (chain, h)
                && twice[j] == (chain, h) ==> i == j
        }),
{
    let once = ensured(keys, chain, seq![h]);
    lemma_ensured(keys, chain, seq![h]);
    lemma_ensured(once, chain, seq![h]);
    let twice = ensured(once, chain, seq![h]);
    assert(seq![h][0] == h);
}

/// The sender and receiver ids of each transaction row.
pub open spec fn tx_links(txs: Seq<TransactionRecord>) -> Seq<(Seq<i64>, Seq<i64>)> {
    txs.map_values(|t: TransactionRecord| (t.from@, t.to@))
}

/// The id of the first address row, on any chain, with the hash `h`.
pub open spec fn hash_owner(rows: Seq<AddressRecord>, h: Seq<u8>) -> Option<i64>
    decreases rows.len(),
{
    if rows.len() == 0 {
        None
    } else {
        match hash_owner(rows.drop_last(), h) {
            Some(x) => Some(x),
            None => if rows.last().hash@ == h {
                Some(rows.last().id)
            } else {
                None
            },
        }
    }
}

/// The title an address is shown with: its own, or its hash in hexadecimal.
pub open spec fn display_title(row: AddressRecord) -> Seq<char> {
    title_or_hex(row.title, row.hash@)
}

/// `p` is what the relation analysis knows of the address row `row`.
pub open spec fn private_matches(p: PrivAddress, row: AddressRecord) -> bool {
    &&& p.title@ == display_title(row)
    &&& p.chain == row.chain
    &&& p.hash@ == row.hash@
    &&& p.tags@ == row.tags@
    &&& p.services@ == row.services@
}

/// `r` shows the address row with its id: hash, title, and the texts of its
/// tags and services.
pub open spec fn shows_row(
    r: AddressRefHuman,
    rows: Seq<AddressRecord>,
    tag_titles: Seq<(i32, String)>,
    service_titles: Seq<(i32, String)>,
) -> bool {
    let row = rows[r.id - 1];
    &&& 1 <= r.id <= rows.len()
    &&& r.hex@ == hex_text_of(row.hash@)
    &&& r.human@ == display_title(row)
    &&& r.tags@.len() == row.tags@.len()
    &&& forall|k: int| 0 <= k < r.tags@.len() ==> (#[trigger] r.tags@[k])@ == label_text(tag_titles, row.tags@[k])
    &&& r.services@.len() == row.services@.len()
    &&& forall|k: int| 0 <= k < r.services@.len() ==> (#[trigger] r.services@[k])@ == label_text(service_titles, row.services@[k])
}


/// For each counted address, its services (`true`) or tags, with its count.
pub open spec fn weight_entries(counts: Seq<(i64, u64)>, rows: Seq<AddressRecord>, services: bool) -> Seq<(Seq<i32>, u64)> {
    counts.map_values(
        |x: (i64, u64)|
            (
                if services {
                    rows[x.0 - 1].services@
                } else {
                    rows[x.0 - 1].tags@
                },
                x.1,
            ),
    )
}

/// How many tags and services the frequency tables of a relation list.
pub const FREQUENCY_LIMIT: usize = 10;

/// `rel` is the relation of the address `a` over the tables: its four ranked
/// counterparty lists, each entry shown from its address row, and the frequency
/// tables of the tags and services over all four lists.
pub open spec fn human_relation(
    rel: AddressRelationHuman,
    rows: Seq<AddressRecord>,
    txs: Seq<TransactionRecord>,
    tag_titles: Seq<(i32, String)>,
    service_titles: Seq<(i32, String)>,
    a: i64,
) -> bool {
    let links = tx_links(txs);
    let all = ref_counts(rel.inputs@) + ref_counts(rel.outputs@) + ref_counts(rel.mixed_in@) + ref_counts(
        rel.mixed_out@,
    );
    &&& 1 <= a <= rows.len()
    &&& rel.id == a
    &&& rel.hex@ == hex_text_of(rows[a - 1].hash@)
    &&& rel.human@ == display_title(rows[a - 1])
    &&& counted_relation(ref_counts(rel.inputs@), links, a, false, true)
    &&& counted_relation(ref_counts(rel.outputs@), links, a, true, false)
    &&& counted_relation(ref_counts(rel.mixed_in@), links, a, true, true)
    &&& counted_relation(ref_counts(rel.mixed_out@), links, a, false, false)
    &&& forall|i: int| 0 <= i < rel.inputs@.len() ==> shows_row(#[trigger] rel.inputs@[i], rows, tag_titles, service_titles)
    &&& forall|i: int| 0 <= i < rel.outputs@.len() ==> shows_row(#[trigger] rel.outputs@[i], rows, tag_titles, service_titles)
    &&& forall|i: int| 0 <= i < rel.mixed_in@.len() ==> shows_row(#[trigger] rel.mixed_in@[i], rows, tag_titles, service_titles)
    &&& forall|i: int| 0 <= i < rel.mixed_out@.len() ==> shows_row(#[trigger] rel.mixed_out@[i], rows, tag_titles, service_titles)
    &&& frequency_table(rel.tags@, weight_entries(all, rows, false), tag_titles, FREQUENCY_LIMIT as nat)
    &&& frequency_table(rel.services@, weight_entries(all, rows, true), service_titles, FREQUENCY_LIMIT as nat)
}

/// `r` shows the address row with its id: hash, title, tag ids and service ids.
pub open spec fn shows_row_ids(r: AddressRef, rows: Seq<AddressRecord>) -> bool {
    let row = rows[r.id - 1];
    &&& 1 <= r.id <= rows.len()
    &&& r.hex@ == hex_text_of(row.hash@)
    &&& r.human@ == display_title(row)
    &&& r.tags@ == row.tags@
    &&& r.services@ == row.services@
}


/// The ids of the labels of a frequency table.
pub open spec fn frequency_ids(t: Seq<Frequency>) -> Seq<i32> {
    t.map_values(|f: Frequency| f.id)
}

/// `rel` is the relation of the address `a` over the tables, by ids: its four
/// ranked counterparty lists, each entry shown from its address row, and the
/// ids of the tags and services of the frequency tables over all four lists.
pub open spec fn id_relation(
    rel: AddressRelation,
    rows: Seq<AddressRecord>,
    txs: Seq<TransactionRecord>,
    tag_titles: Seq<(i32, String)>,
    service_titles: Seq<(i32, String)>,
    a: i64,
) -> bool {
    let links = tx_links(txs);
    let all = ref_id_counts(rel.inputs@) + ref_id_counts(rel.outputs@) + ref_id_counts(rel.mixed_in@)
        + ref_id_counts(rel.mixed_out@);
    &&& 1 <= a <= rows.len()
    &&& rel.id == a
    &&& rel.hex@ == hex_text_of(rows[a - 1].hash@)
    &&& rel.human@ == display_title(rows[a - 1])
    &&& counted_relation(ref_id_counts(rel.inputs@), links, a, false, true)
    &&& counted_relation(ref_id_counts(rel.outputs@), links, a, true, false)
    &&& counted_relation(ref_id_counts(rel.mixed_in@), links, a, true, true)
    &&& counted_relation(ref_id_counts(rel.mixed_out@), links, a, false, false)
    &&& forall|i: int| 0 <= i < rel.inputs@.len() ==> shows_row_ids(#[trigger] rel.inputs@[i], rows)
    &&& forall|i: int| 0 <= i < rel.outputs@.len() ==> shows_row_ids(#[trigger] rel.outputs@[i], rows)
    &&& forall|i: int| 0 <= i < rel.mixed_in@.len() ==> shows_row_ids(#[trigger] rel.mixed_in@[i], rows)
    &&& forall|i: int| 0 <= i < rel.mixed_out@.len() ==> shows_row_ids(#[trigger] rel.mixed_out@[i], rows)
    &&& exists|t: Seq<Frequency>| frequency_table(t, weight_entries(all, rows, false), tag_titles, FREQUENCY_LIMIT as nat)
        && #[trigger] frequency_ids(t) == rel.tags@
    &&& exists|t: Seq<Frequency>| frequency_table(t, weight_entries(all, rows, true), service_titles, FREQUENCY_LIMIT as nat)
        && #[trigger] frequency_ids(t) == rel.services@
}

/// Some label of `b` is in `a`.
pub open spec fn shares_label(a: Seq<i32>, b: Seq<i32>) -> bool {
    exists|i: int| 0 <= i < b.len() && a.contains(#[trigger] b[i])
}

/// Some id of `b` is in `a`.
pub open spec fn shares_id(a: Seq<i64>, b: Seq<i64>) -> bool {
    exists|i: int| 0 <= i < b.len() && a.contains(#[trigger] b[i])
}

/// A filter that is absent or empty lets everything through; otherwise
/// `shared` must hold.
pub open spec fn passes<T>(filter: Option<Seq<T>>, shared: bool) -> bool {
    match filter {
        Some(f) => f.len() > 0 ==> shared,
        None => true,
    }
}

/// The address row lies on one of `chains` and carries one of the services
/// and one of the tags asked for, where those are asked for.
pub open spec fn selected_address(
    row: AddressRecord,
    chains: Seq<i32>,
    services: Option<Seq<i32>>,
    tags: Option<Seq<i32>>,
) -> bool {
    &&& chains.contains(row.chain)
    &&& passes(services, services matches Some(s) && shares_label(row.services@, s))
    &&& passes(tags, tags matches Some(t) && shares_label(row.tags@, t))
}

/// The side of a transaction that is read: its senders for `From`.
pub open spec fn read_side(t: TransactionRecord, direction: DirectionOfInteraction) -> Seq<i64> {
    match direction {
        DirectionOfInteraction::From => t.from@,
        DirectionOfInteraction::To => t.to@,
    }
}

/// The other side, where a selected address must stand.
pub open spec fn anchor_side(t: TransactionRecord, direction: DirectionOfInteraction) -> Seq<i64> {
    match direction {
        DirectionOfInteraction::From => t.to@,
        DirectionOfInteraction::To => t.from@,
    }
}

/// The transaction lies on one of `chains`, a selected address stands on its
/// anchor side, and it passes the sender and receiver filters.
pub open spec fn interacting_transaction(
    t: TransactionRecord,
    rows: Seq<AddressRecord>,
    chains: Seq<i32>,
    from: Option<Seq<i64>>,
    to: Option<Seq<i64>>,
    services: Option<Seq<i32>>,
    tags: Option<Seq<i32>>,
    direction: DirectionOfInteraction,
) -> bool {
    &&& chains.contains(t.chain)
    &&& exists|k: int| 0 <= k < anchor_side(t, direction).len() && 1 <= #[trigger] anchor_side(t, direction)[k] <= rows.len()
        && selected_address(rows[anchor_side(t, direction)[k] - 1], chains, services, tags)
    &&& passes(from, from matches Some(f) && shares_id(t.from@, f))
    &&& passes(to, to matches Some(f) && shares_id(t.to@, f))
}

/// Whether `x` is among `v`.
fn has_label(v: &Vec<i32>, x: i32) -> (r: bool)
    ensures
        r == v@.contains(x),
{
    let mut k: usize = 0;
    while k < v.len()
        invariant
            k <= v@.len(),
            forall|m: int| 0 <= m < k ==> v@[m] != x,
        decreases v@.len() - k,
    {
        if v[k] == x {
            assert(v@[k as int] == x);
            return true;
        }
        k = k + 1;
    }
    false
}

/// Whether some label of `b` is in `a`.
fn share_label(a: &Vec<i32>, b: &Vec<i32>) -> (r: bool)
    ensures
        r == shares_label(a@, b@),
{
    let mut k: usize = 0;
    while k < b.len()
        invariant
            k <= b@.len(),
            forall|m: int| 0 <= m < k ==> !a@.contains(#[trigger] b@[m]),
        decreases b@.len() - k,
    {
        if has_label(a, b[k]) {
            return true;
        }
        k = k + 1;
    }
    false
}

/// Whether some id of `b` is in `a`.
fn share_id(a: &Vec<i64>, b: &Vec<i64>) -> (r: bool)
    ensures
        r == shares_id(a@, b@),
{
    let mut k: usize = 0;
    while k < b.len()
        invariant
            k <= b@.len(),
            forall|m: int| 0 <= m < k ==> !a@.contains(#[trigger] b@[m]),
        decreases b@.len() - k,
    {
        if crate::relation::lists(a, b[k]) {
            return true;
        }
        k = k + 1;
    }
    false
}

/// Whether a label filter lets `labels` through.
fn label_filter(filter: &Option<Vec<i32>>, labels: &Vec<i32>) -> (r: bool)
    ensures
        r == passes(
            match filter {
                Some(f) => Some(f@),
                None => None,
            },
            filter matches Some(f) && shares_label(labels@, f@),
        ),
{
    match filter {
        Some(f) => f.len() == 0 || share_label(labels, f),
        None => true,
    }
}

/// Whether an id filter lets `ids` through.
fn id_filter(filter: &Option<Vec<i64>>, ids: &Vec<i64>) -> (r: bool)
    ensures
        r == passes(
            match filter {
                Some(f) => Some(f@),
                None => None,
            },
            filter matches Some(f) && shares_id(ids@, f@),
        ),
{
    match filter {
        Some(f) => f.len() == 0 || share_id(ids, f),
        None => true,
    }
}

/// The view of an optional list.
pub open spec fn opt_view<T>(o: Option<Vec<T>>) -> Option<Seq<T>> {
    match o {
        Some(v) => Some(v@),
        None => None,
    }
}

proof fn lemma_hash_owner(rows: Seq<AddressRecord>, h: Seq<u8>)
    requires
        forall|i: int| 0 <= i < rows.len() ==> (#[trigger] rows[i]).id == i + 1,
    ensures
        hash_owner(rows, h) matches Some(x) ==> 1 <= x <= rows.len() && rows[x - 1].hash@ == h
            && forall|k: int| 0 <= k < x - 1 ==> (#[trigger] rows[k]).hash@ != h,
        hash_owner(rows, h) is None ==> forall|k: int| 0 <= k < rows.len() ==> (#[trigger] rows[k]).hash@ != h,
    decreases rows.len(),
{
    if rows.len() > 0 {
        let s = rows.drop_last();
        assert forall|i: int| 0 <= i < s.len() implies (#[trigger] s[i]).id == i + 1 by {
            assert(s[i] == rows[i]);
        }
        lemma_hash_owner(s, h);
        assert forall|k: int| 0 <= k < s.len() implies s[k] == rows[k] by {}
    }
}

proof fn lemma_pair_count_ids(links: Seq<(Seq<i64>, Seq<i64>)>, a: i64, a_side: bool, b: i64, b_side: bool, n: int)
    requires
        forall|i: int, k: int| 0 <= i < links.len() && 0 <= k < links[i].0.len() ==> 1 <= #[trigger] links[i].0[k] <= n,
        forall|i: int, k: int| 0 <= i < links.len() && 0 <= k < links[i].1.len() ==> 1 <= #[trigger] links[i].1[k] <= n,
        pair_count(links, a, a_side, b, b_side) > 0,
    ensures
        1 <= b <= n,
    decreases links.len(),
{
    let l = links.last();
    if side(l, b_side).contains(b) && side(l, a_side).contains(a) {
        let k = choose|k: int| 0 <= k < side(l, b_side).len() && side(l, b_side)[k] == b;
        assert(l == links[links.len() - 1]);
    } else {
        let d = links.drop_last();
        assert forall|i: int, k: int| 0 <= i < d.len() && 0 <= k < d[i].0.len() implies 1 <= #[trigger] d[i].0[k] <= n by {
            assert(d[i] == links[i]);
        }
        assert forall|i: int, k: int| 0 <= i < d.len() && 0 <= k < d[i].1.len() implies 1 <= #[trigger] d[i].1[k] <= n by {
            assert(d[i] == links[i]);
        }
        lemma_pair_count_ids(d, a, a_side, b, b_side, n);
    }
}

proof fn lemma_entry_matches(dir: Seq<(i64, PrivAddress)>, rows: Seq<AddressRecord>, id: i64)
    requires
        forall|k: int| 0 <= k < dir.len() ==> 1 <= (#[trigger] dir[k]).0 <= rows.len() && private_matches(dir[k].1, rows[dir[k].0 - 1]),
        exists|k: int| 0 <= k < dir.len() && (#[trigger] dir[k]).0 == id,
    ensures
        entry_of(dir, id) matches Some(p) && private_matches(p, rows[id - 1]),
    decreases dir.len(),
{
    if dir[0].0 != id {
        let rest = dir.subrange(1, dir.len() as int);
        let k = choose|k: int| 0 <= k < dir.len() && (#[trigger] dir[k]).0 == id;
        assert(rest[k - 1] == dir[k]);
        assert forall|m: int| 0 <= m < rest.len() implies 1 <= (#[trigger] rest[m]).0 <= rows.len() && private_matches(rest[m].1, rows[rest[m].0 - 1]) by {
            assert(rest[m] == dir[m + 1]);
        }
        lemma_entry_matches(rest, rows, id);
    }
}

/// The position of the transaction row with this chain and hash.
pub open spec fn tx_position(rows: Seq<TransactionRecord>, chain: i32, h: Seq<u8>) -> Option<int>
    decreases rows.len(),
{
    if rows.len() == 0 {
        None
    } else if rows.last().chain == chain && rows.last().hash@ == h {
        Some(rows.len() - 1)
    } else {
        tx_position(rows.drop_last(), chain, h)
    }
}

/// The address id of the output that a Cardano input spends: the receiver at
/// position `index` of the stored transaction with hash `tx_id` on `chain`.
pub open spec fn spent_output(rows: Seq<TransactionRecord>, chain: i32, tx_id: Seq<char>, index: u64) -> Option<i64> {
    if !is_hex_text(tx_id) {
        None
    } else {
        match tx_position(rows, chain, hex_bytes_of(tx_id)) {
            Some(i) => if index < rows[i].to@.len() {
                Some(rows[i].to@[index as int])
            } else {
                None
            },
            None => None,
        }
    }
}

/// The bytes of every output address of `txs`, in order.
pub open spec fn block_outputs(txs: Seq<CardanoTx>) -> Seq<Seq<u8>>
    decreases txs.len(),
{
    if txs.len() == 0 {
        Seq::empty()
    } else {
        block_outputs(txs.drop_last()) + txs.last().outputs@.map_values(|o: String| address_bytes(o@))
    }
}

/// The number of outputs of `txs`.
pub open spec fn output_count(txs: Seq<CardanoTx>) -> nat
    decreases txs.len(),
{
    if txs.len() == 0 {
        0
    } else {
        output_count(txs.drop_last()) + txs.last().outputs@.len()
    }
}

/// The transactions of a block that the store lacks on `chain`, in order, each
/// hash once; those whose hash is not hexadecimal are left out.
pub open spec fn fresh_block(stored: Seq<(i32, Seq<u8>)>, chain: i32, txs: Seq<CardanoTx>) -> Seq<CardanoTx>
    decreases txs.len(),
{
    if txs.len() == 0 {
        Seq::empty()
    } else {
        let prev = fresh_block(stored, chain, txs.drop_last());
        let t = txs.last();
        if !is_hex_text(t.hash@) || stored.contains((chain, hex_bytes_of(t.hash@)))
            || prev.map_values(|p: CardanoTx| hex_bytes_of(p.hash@)).contains(hex_bytes_of(t.hash@)) {
            prev
        } else {
            prev.push(t)
        }
    }
}

/// The address ids of the stored outputs that `inputs` spend, in input
/// order, each once.
pub open spec fn block_senders(rows: Seq<TransactionRecord>, chain: i32, inputs: Seq<CardanoInput>) -> Seq<i64>
    decreases inputs.len(),
{
    if inputs.len() == 0 {
        Seq::empty()
    } else {
        let prev = block_senders(rows, chain, inputs.drop_last());
        match spent_output(rows, chain, inputs.last().tx_id@, inputs.last().index) {
            Some(x) => if prev.contains(x) {
                prev
            } else {
                prev.push(x)
            },
            None => prev,
        }
    }
}

/// `r` is the row of the block transaction `t`, stored after the rows
/// `before`: its receivers are the ids of its outputs' addresses, in output
/// order, and its senders the ids of the outputs that its inputs spend, in
/// input order, each once.
pub open spec fn records_block_tx(
    r: TransactionRecord,
    before: Seq<TransactionRecord>,
    addresses: Seq<AddressRecord>,
    chain: i32,
    t: CardanoTx,
) -> bool {
    &&& r.chain == chain
    &&& r.hash@ == hex_bytes_of(t.hash@)
    &&& r.amount is None
    &&& r.to@.len() == t.outputs@.len()
    &&& forall|k: int| 0 <= k < r.to@.len() ==> Some(#[trigger] r.to@[k]) == address_id(addresses, chain, address_bytes(t.outputs@[k]@))
    &&& r.from@ == block_senders(before, chain, t.inputs@)
}

proof fn lemma_tx_position(rows: Seq<TransactionRecord>, chain: i32, h: Seq<u8>)
    ensures
        tx_position(rows, chain, h) matches Some(i) ==> 0 <= i < rows.len() && rows[i].chain == chain && rows[i].hash@ == h,
        tx_position(rows, chain, h) is None <==> !transaction_keys(rows).contains((chain, h)),
    decreases rows.len(),
{
    if rows.len() > 0 {
        let d = rows.drop_last();
        lemma_tx_position(d, chain, h);
        assert(transaction_keys(d) =~= transaction_keys(rows).drop_last());
        if transaction_keys(rows).contains((chain, h)) {
            let k = choose|k: int| 0 <= k < rows.len() && transaction_keys(rows)[k] == (chain, h);
            if k < rows.len() - 1 {
                assert(transaction_keys(d)[k] == (chain, h));
            }
        }
        if transaction_keys(d).contains((chain, h)) {
            let k = choose|k: int| 0 <= k < d.len() && transaction_keys(d)[k] == (chain, h);
            assert(transaction_keys(rows)[k] == (chain, h));
        }
        if rows.last().chain == chain && rows.last().hash@ == h {
            assert(transaction_keys(rows)[rows.len() - 1] == (chain, h));
        }
    }
}

proof fn lemma_block_outputs_hold(txs: Seq<CardanoTx>, i: int)
    requires
        0 <= i < txs.len(),
    ensures
        forall|k: int| 0 <= k < txs[i].outputs@.len() ==> block_outputs(txs).contains(address_bytes((#[trigger] txs[i].outputs@[k])@)),
    decreases txs.len(),
{
    let d = txs.drop_last();
    let bd = block_outputs(d);
    let b = block_outputs(txs);
    if i < txs.len() - 1 {
        lemma_block_outputs_hold(d, i);
        assert(d[i] == txs[i]);
        assert forall|k: int| 0 <= k < txs[i].outputs@.len() implies b.contains(address_bytes((#[trigger] txs[i].outputs@[k])@)) by {
            let m = choose|m: int| 0 <= m < bd.len() && bd[m] == address_bytes(txs[i].outputs@[k]@);
            assert(b[m] == bd[m]);
        }
    } else {
        assert forall|k: int| 0 <= k < txs[i].outputs@.len() implies b.contains(address_bytes((#[trigger] txs[i].outputs@[k])@)) by {
            assert(b[bd.len() + k] == address_bytes(txs[i].outputs@[k]@));
        }
    }
}

proof fn lemma_output_count(txs: Seq<CardanoTx>)
    ensures
        block_outputs(txs).len() == output_count(txs),
    decreases txs.len(),
{
    if txs.len() > 0 {
        lemma_output_count(txs.drop_last());
    }
}


/// The keys of hashes known on `chain`.
pub open spec fn keys_on(chain: i32, known: Seq<Vec<u8>>) -> Seq<(i32, Seq<u8>)> {
    known.map_values(|h: Vec<u8>| (chain, h@))
}

/// Whether `h` is among `known`.
fn known_hash(known: &Vec<Vec<u8>>, chain: i32, h: &Vec<u8>) -> (r: bool)
    ensures
        r == keys_on(chain, known@).contains((chain, h@)),
{
    let mut k: usize = 0;
    while k < known.len()
        invariant
            k <= known@.len(),
            forall|m: int| 0 <= m < k ==> keys_on(chain, known@)[m] != (chain, h@),
        decreases known@.len() - k,
    {
        if same_bytes(&known[k], h) {
            assert(keys_on(chain, known@)[k as int] == (chain, h@));
            return true;
        }
        k = k + 1;
    }
    false
}

/// The positions in `txs` of the transactions to store on `chain` when the
/// hashes `known` are stored there already: those not known, each hash once,
/// the first with it.
pub fn fresh_positions(chain: i32, txs: &Vec<TxInput>, known: &Vec<Vec<u8>>) -> (r: Vec<usize>)
    ensures
        r@.map_values(|k: usize| txs@[k as int]) == fresh_inputs(keys_on(chain, known@), chain, txs@),
        forall|m: int| 0 <= m < r@.len() ==> #[trigger] r@[m] < txs@.len(),
{
    let ghost stored = keys_on(chain, known@);
    let mut fresh: Vec<usize> = Vec::new();
    let mut i: usize = 0;
    while i < txs.len()
        invariant
            i <= txs@.len(),
            stored == keys_on(chain, known@),
            fresh_inputs(stored, chain, txs@.subrange(0, i as int)) == fresh@.map_values(|k: usize| txs@[k as int]),
            forall|m: int| 0 <= m < fresh@.len() ==> #[trigger] fresh@[m] < txs@.len(),
        decreases txs@.len() - i,
    {
        let t = &txs[i];
        let is_known = known_hash(known, chain, &t.hash);
        let ghost prev = fresh@.map_values(|k: usize| txs@[k as int]);
        let mut dup = false;
        let mut m: usize = 0;
        while m < fresh.len()
            invariant
                m <= fresh@.len(),
                forall|q: int| 0 <= q < fresh@.len() ==> #[trigger] fresh@[q] < txs@.len(),
                prev == fresh@.map_values(|k: usize| txs@[k as int]),
                dup == exists|q: int| 0 <= q < m && input_hashes(prev)[q] == t.hash@,
            decreases fresh@.len() - m,
        {
            if same_bytes(&txs[fresh[m]].hash, &t.hash) {
                dup = true;
            }
            proof {
                assert(input_hashes(prev)[m as int] == txs@[fresh@[m as int] as int].hash@);
            }
            m = m + 1;
        }
        proof {
            let d = txs@.subrange(0, i + 1);
            assert(d.drop_last() =~= txs@.subrange(0, i as int));
            assert(d.last() == txs@[i as int]);
            if input_hashes(prev).contains(t.hash@) {
                let q = choose|q: int| 0 <= q < input_hashes(prev).len() && input_hashes(prev)[q] == t.hash@;
            }
        }
        if !is_known && !dup {
            fresh.push(i);
            proof {
                assert(fresh@.map_values(|k: usize| txs@[k as int]) =~= prev.push(txs@[i as int]));
            }
        }
        i = i + 1;
    }
    proof {
        assert(txs@.subrange(0, txs@.len() as int) =~= txs@);
    }
    fresh
}

/// Every sender and receiver hash of the transactions of `txs` at the
/// positions `picks`, in order.
pub fn referenced_hashes(txs: &Vec<TxInput>, picks: &Vec<usize>) -> (r: Vec<Vec<u8>>)
    requires
        forall|m: int| 0 <= m < picks@.len() ==> #[trigger] picks@[m] < txs@.len(),
    ensures
        hash_views(r@) == referenced(picks@.map_values(|k: usize| txs@[k as int])),
{
    let ghost fs = picks@.map_values(|k: usize| txs@[k as int]);
    let mut refs: Vec<Vec<u8>> = Vec::new();
    let mut k: usize = 0;
    while k < picks.len()
        invariant
            k <= picks@.len(),
            fs == picks@.map_values(|k: usize| txs@[k as int]),
            forall|m: int| 0 <= m < picks@.len() ==> #[trigger] picks@[m] < txs@.len(),
            hash_views(refs@) == referenced(fs.subrange(0, k as int)),
        decreases picks@.len() - k,
    {
        let t = &txs[picks[k]];
        let ghost base = hash_views(refs@);
        let mut j: usize = 0;
        while j < t.from.len()
            invariant
                j <= t.from@.len(),
                hash_views(refs@) == base + hash_views(t.from@.subrange(0, j as int)),
            decreases t.from@.len() - j,
        {
            let ghost before = refs@;
            let h = t.from[j].clone();
            refs.push(h);
            proof {
                assert(hash_views(refs@) =~= hash_views(before).push(h@));
                assert(t.from@.subrange(0, j + 1) =~= t.from@.subrange(0, j as int).push(t.from@[j as int]));
                assert(hash_views(t.from@.subrange(0, j + 1)) =~= hash_views(t.from@.subrange(0, j as int)).push(t.from@[j as int]@));
            }
            j = j + 1;
        }
        let ghost mid = hash_views(refs@);
        let mut j: usize = 0;
        while j < t.to.len()
            invariant
                j <= t.to@.len(),
                hash_views(refs@) == mid + hash_views(t.to@.subrange(0, j as int)),
            decreases t.to@.len() - j,
        {
            let ghost before = refs@;
            let h = t.to[j].clone();
            refs.push(h);
            proof {
                assert(hash_views(refs@) =~= hash_views(before).push(h@));
                assert(t.to@.subrange(0, j + 1) =~= t.to@.subrange(0, j as int).push(t.to@[j as int]));
                assert(hash_views(t.to@.subrange(0, j + 1)) =~= hash_views(t.to@.subrange(0, j as int)).push(t.to@[j as int]@));
            }
            j = j + 1;
        }
        proof {
            assert(t.from@.subrange(0, t.from@.len() as int) =~= t.from@);
            assert(t.to@.subrange(0, t.to@.len() as int) =~= t.to@);
            let s = fs.subrange(0, k + 1);
            assert(s.drop_last() =~= fs.subrange(0, k as int));
            assert(s.last() == *t);
            assert(hash_views(refs@) =~= referenced(s));
        }
        k = k + 1;
    }
    proof {
        assert(fs.subrange(0, fs.len() as int) =~= fs);
    }
    refs
}

/// The ids of the labels of a frequency table, in order.
pub fn frequency_id_list(t: &Vec<Frequency>) -> (r: Vec<i32>)
    ensures
        r@ == frequency_ids(t@),
{
    let mut r: Vec<i32> = Vec::new();
    let mut k: usize = 0;
    while k < t.len()
        invariant
            k <= t@.len(),
            r@ == frequency_ids(t@.subrange(0, k as int)),
        decreases t@.len() - k,
    {
        r.push(t[k].id);
        proof {
            assert(frequency_ids(t@.subrange(0, k + 1)) =~= frequency_ids(t@.subrange(0, k as int)).push(t@[k as int].id));
        }
        k = k + 1;
    }
    proof {
        assert(t@.subrange(0, t@.len() as int) =~= t@);
    }
    r
}

/// `d` is the row to store for the transaction `t`: the ids that `ids` gives
/// to its sender and receiver hashes, ascending, each once; a hash that `ids`
/// lacks is left out.
pub open spec fn drafts_input(d: TransactionDraft, t: TxInput, ids: Seq<(Vec<u8>, i64)>) -> bool {
    &&& d.hash@ == t.hash@
    &&& d.amount == t.amount
    &&& ascending(d.from@)
    &&& ascending(d.to@)
    &&& forall|x: i64| d.from@.contains(x) <==> resolves_to(ids, t.from@, x)
    &&& forall|x: i64| d.to@.contains(x) <==> resolves_to(ids, t.to@, x)
}

/// The rows to store for the transactions `txs` on `chain`, given the hashes
/// of those already `known` there and the ids of the addresses they name:
/// one for each transaction not known, each hash once, in order.
pub fn plan_transactions(
    chain: i32,
    txs: &Vec<TxInput>,
    known: &Vec<Vec<u8>>,
    ids: &Vec<(Vec<u8>, i64)>,
) -> (r: Vec<TransactionDraft>)
    ensures
        r@.len() == fresh_inputs(keys_on(chain, known@), chain, txs@).len(),
        forall|k: int| 0 <= k < r@.len() ==> drafts_input(
            #[trigger] r@[k],
            fresh_inputs(keys_on(chain, known@), chain, txs@)[k],
            ids@,
        ),
{
    let picks = fresh_positions(chain, txs, known);
    let ghost f = fresh_inputs(keys_on(chain, known@), chain, txs@);
    let mut r: Vec<TransactionDraft> = Vec::new();
    let mut k: usize = 0;
    while k < picks.len()
        invariant
            k <= picks@.len(),
            picks@.map_values(|p: usize| txs@[p as int]) == f,
            forall|m: int| 0 <= m < picks@.len() ==> #[trigger] picks@[m] < txs@.len(),
            r@.len() == k,
            forall|m: int| 0 <= m < k ==> drafts_input(#[trigger] r@[m], f[m], ids@),
        decreases picks@.len() - k,
    {
        let t = &txs[picks[k]];
        proof {
            assert(f[k as int] == *t);
        }
        let from = resolve_side(&t.from, ids);
        let to = resolve_side(&t.to, ids);
        r.push(TransactionDraft { hash: t.hash.clone(), amount: t.amount, from, to });
        k = k + 1;
    }
    r
}

impl Store {
    /// The address rows.
    pub closed spec fn address_rows(&self) -> Seq<AddressRecord> {
        self.addresses@
    }

    /// The transaction rows.
    pub closed spec fn transaction_rows(&self) -> Seq<TransactionRecord> {
        self.transactions@
    }

    /// The titles of tags, by id.
    pub closed spec fn tag_table(&self) -> Seq<(i32, String)> {
        self.tag_titles@
    }

    /// The titles of services, by id.
    pub closed spec fn service_table(&self) -> Seq<(i32, String)> {
        self.service_titles@
    }

    /// The tables keep their invariants.
    pub open spec fn wf(&self) -> bool {
        &&& addresses_wf(self.address_rows())
        &&& transactions_wf(self.transaction_rows(), self.address_rows().len() as int)
    }

    /// Empty tables.
    pub fn new() -> (r: Store)
        ensures
            r.wf(),
            r.address_rows().len() == 0,
            r.transaction_rows().len() == 0,
            r.tag_table().len() == 0,
            r.service_table().len() == 0,
    {
        let r = Store {
            addresses: Vec::new(),
            transactions: Vec::new(),
            tag_titles: Vec::new(),
            service_titles: Vec::new(),
        };
        assert(address_keys(r.addresses@) =~= Seq::empty());
        assert(transaction_keys(r.transactions@) =~= Seq::empty());
        r
    }

    /// The id of the address with this chain and hash.
    pub fn find_address(&self, chain: i32, hash: &Vec<u8>) -> (r: Option<i64>)
        requires
            self.wf(),
        ensures
            r == address_id(self.address_rows(), chain, hash@),
    {
        let mut k: usize = self.addresses.len();
        assert(self.addresses@.subrange(0, k as int) =~= self.addresses@);
        while k > 0
            invariant
                k <= self.addresses@.len(),
                address_id(self.addresses@.subrange(0, k as int), chain, hash@) == address_id(self.addresses@, chain, hash@),
            decreases k,
        {
            let ghost s = self.addresses@.subrange(0, k as int);
            proof {
                assert(s.drop_last() =~= self.addresses@.subrange(0, k - 1));
            }
            let row = &self.addresses[k - 1];
            if row.chain == chain && same_bytes(&row.hash, hash) {
                return Some(row.id);
            }
            k = k - 1;
        }
        None
    }

    /// Adds, for each hash of `hashes` in turn, an address row on `chain` where
    /// none has that chain and hash. New rows have no title, tags or services.
    pub fn ensure_addresses(&mut self, chain: i32, hashes: &Vec<Vec<u8>>)
        requires
            old(self).wf(),
            old(self).address_rows().len() + hashes@.len() < i64::MAX,
        ensures
            final(self).wf(),
            address_keys(final(self).address_rows()) == ensured(
                address_keys(old(self).address_rows()),
                chain,
                hash_views(hashes@),
            ),
            final(self).address_rows().len() >= old(self).address_rows().len(),
            final(self).address_rows().subrange(0, old(self).address_rows().len() as int)
                == old(self).address_rows(),
            forall|i: int| old(self).address_rows().len() <= i < final(self).address_rows().len() ==> {
                &&& (#[trigger] final(self).address_rows()[i]).title is None
                &&& final(self).address_rows()[i].tags@.len() == 0
                &&& final(self).address_rows()[i].services@.len() == 0
            },
            final(self).transaction_rows() == old(self).transaction_rows(),
            final(self).tag_table() == old(self).tag_table(),
            final(self).service_table() == old(self).service_table(),
    {
        let ghost start = self.addresses@;
        let mut i: usize = 0;
        while i < hashes.len()
            invariant
                i <= hashes@.len(),
                self.wf(),
                start.len() + hashes@.len() < i64::MAX,
                self.addresses@.len() <= start.len() + i,
                address_keys(self.addresses@) == ensured(address_keys(start), chain, hash_views(hashes@.subrange(0, i as int))),
                self.addresses@.len() >= start.len(),
                self.addresses@.subrange(0, start.len() as int) == start,
                forall|k: int| start.len() <= k < self.addresses@.len() ==> {
                    &&& (#[trigger] self.addresses@[k]).title is None
                    &&& self.addresses@[k].tags@.len() == 0
                    &&& self.addresses@[k].services@.len() == 0
                },
                self.transactions == old(self).transactions,
                self.tag_titles == old(self).tag_titles,
                self.service_titles == old(self).service_titles,
            decreases hashes@.len() - i,
        {
            let h = &hashes[i];
            let ghost hs = hash_views(hashes@.subrange(0, i + 1));
            proof {
                assert(hs.drop_last() =~= hash_views(hashes@.subrange(0, i as int)));
                assert(hs.last() == h@);
                lemma_address_id_key(self.addresses@, chain, h@);
            }
            let found = self.find_address(chain, h);
            if found.is_none() {
                let id = self.addresses.len() as i64 + 1;
                let ghost before = self.addresses@;
                self.addresses.push(AddressRecord {
                    id,
                    chain,
                    hash: h.clone(),
                    title: None,
                    services: Vec::new(),
                    tags: Vec::new(),
                });
                proof {
                    assert(address_keys(self.addresses@) =~= address_keys(before).push((chain, h@)));
                    assert(self.addresses@.subrange(0, start.len() as int) =~= before.subrange(0, start.len() as int));
                }
            }
            i = i + 1;
        }
        proof {
            assert(hashes@.subrange(0, hashes@.len() as int) =~= hashes@);
        }
    }

    /// Whether a transaction with this chain and hash is stored.
    pub fn has_transaction(&self, chain: i32, hash: &Vec<u8>) -> (r: bool)
        ensures
            r == transaction_keys(self.transaction_rows()).contains((chain, hash@)),
    {
        let mut k: usize = 0;
        while k < self.transactions.len()
            invariant
                k <= self.transactions@.len(),
                forall|m: int| 0 <= m < k ==> transaction_keys(self.transactions@)[m] != (chain, hash@),
            decreases self.transactions@.len() - k,
        {
            let row = &self.transactions[k];
            if row.chain == chain && same_bytes(&row.hash, hash) {
                assert(transaction_keys(self.transactions@)[k as int] == (chain, hash@));
                return true;
            }
            k = k + 1;
        }
        false
    }

    /// The ids of those of `hashes` that are addresses on `chain`. Hashes that
    /// are not are left out.
    pub fn resolve_ids(&self, chain: i32, hashes: &Vec<Vec<u8>>) -> (r: Vec<(Vec<u8>, i64)>)
        requires
            self.wf(),
        ensures
            forall|h: Seq<u8>| #[trigger] id_for(r@, h) == if hash_views(hashes@).contains(h) {
                address_id(self.address_rows(), chain, h)
            } else {
                None
            },
    {
        let mut r: Vec<(Vec<u8>, i64)> = Vec::new();
        let mut i: usize = 0;
        while i < hashes.len()
            invariant
                i <= hashes@.len(),
                self.wf(),
                forall|h: Seq<u8>| #[trigger] id_for(r@, h) == if hash_views(hashes@.subrange(0, i as int)).contains(h) {
                    address_id(self.addresses@, chain, h)
                } else {
                    None
                },
            decreases hashes@.len() - i,
        {
            let h = &hashes[i];
            let found = self.find_address(chain, h);
            let ghost before = r@;
            proof {
                assert forall|g: Seq<u8>| hash_views(hashes@.subrange(0, i + 1)).contains(g) <==> (hash_views(
                    hashes@.subrange(0, i as int),
                ).contains(g) || g == h@) by {
                    let s = hash_views(hashes@.subrange(0, i + 1));
                    let t = hash_views(hashes@.subrange(0, i as int));
                    if s.contains(g) {
                        let m = choose|m: int| 0 <= m < s.len() && s[m] == g;
                        if m < i {
                            assert(t[m] == g);
                        }
                    }
                    if t.contains(g) {
                        let m = choose|m: int| 0 <= m < t.len() && t[m] == g;
                        assert(s[m] == g);
                    }
                    if g == h@ {
                        assert(s[i as int] == g);
                    }
                }
            }
            match found {
                Some(id) => {
                    r.push((h.clone(), id));
                    proof {
                        assert forall|g: Seq<u8>| #[trigger] id_for(r@, g) == if hash_views(hashes@.subrange(0, i + 1)).contains(g) {
                            address_id(self.addresses@, chain, g)
                        } else {
                            None
                        } by {
                            assert(r@.drop_last() =~= before);
                            assert(r@.last().0@ == h@);
                            assert(id_for(before, g) == if hash_views(hashes@.subrange(0, i as int)).contains(g) {
                                address_id(self.addresses@, chain, g)
                            } else {
                                None
                            });
                            assert(hash_views(hashes@.subrange(0, i + 1)).contains(g) == (hash_views(
                                hashes@.subrange(0, i as int),
                            ).contains(g) || g == h@));
                        }
                    }
                },
                None => {
                    proof {
                        assert forall|g: Seq<u8>| #[trigger] id_for(r@, g) == if hash_views(hashes@.subrange(0, i + 1)).contains(g) {
                            address_id(self.addresses@, chain, g)
                        } else {
                            None
                        } by {
                            assert(id_for(before, g) == if hash_views(hashes@.subrange(0, i as int)).contains(g) {
                                address_id(self.addresses@, chain, g)
                            } else {
                                None
                            });
                            assert(address_id(self.addresses@, chain, h@) is None);
                            assert(r@ == before);
                            assert(hash_views(hashes@.subrange(0, i + 1)).contains(g) == (hash_views(
                                hashes@.subrange(0, i as int),
                            ).contains(g) || g == h@));
                            if g == h@ {
                                assert(id_for(r@, g) is None);
                                assert(address_id(self.addresses@, chain, g) is None);
                            }
                        }
                    }
                },
            }
            i = i + 1;
        }
        proof {
            assert(hashes@.subrange(0, hashes@.len() as int) =~= hashes@);
        }
        r
    }


    /// Stores the transactions of `txs` that `chain` lacks, each hash once,
    /// after adding the addresses that they name. The sender and receiver ids of
    /// a new row are those of its hashes that name an address, ascending; a hash
    /// that names none is left out. Afterwards every transaction of `txs` is
    /// stored, and where all of them already were, nothing changes.
    pub fn ensure_transactions(&mut self, chain: i32, txs: &Vec<TxInput>)
        requires
            old(self).wf(),
            old(self).address_rows().len() + reference_count(txs@) < i64::MAX,
            old(self).transaction_rows().len() + txs@.len() < i64::MAX,
        ensures
            final(self).wf(),
            ({
                let f = fresh_inputs(transaction_keys(old(self).transaction_rows()), chain, txs@);
                &&& address_keys(final(self).address_rows()) == ensured(
                    address_keys(old(self).address_rows()),
                    chain,
                    referenced(f),
                )
                &&& final(self).transaction_rows().len() == old(self).transaction_rows().len() + f.len()
                &&& forall|k: int| 0 <= k < f.len() ==> records_input(
                    #[trigger] final(self).transaction_rows()[old(self).transaction_rows().len() + k],
                    final(self).address_rows(),
                    chain,
                    f[k],
                )
            }),
            final(self).transaction_rows().subrange(0, old(self).transaction_rows().len() as int)
                == old(self).transaction_rows(),
            final(self).address_rows().len() >= old(self).address_rows().len(),
            final(self).address_rows().subrange(0, old(self).address_rows().len() as int)
                == old(self).address_rows(),
            forall|i: int| old(self).address_rows().len() <= i < final(self).address_rows().len() ==> {
                &&& (#[trigger] final(self).address_rows()[i]).title is None
                &&& final(self).address_rows()[i].tags@.len() == 0
                &&& final(self).address_rows()[i].services@.len() == 0
            },
            forall|j: int| 0 <= j < txs@.len() ==> transaction_keys(final(self).transaction_rows()).contains(
                (chain, (#[trigger] txs@[j]).hash@),
            ),
            (forall|j: int| 0 <= j < txs@.len() ==> transaction_keys(old(self).transaction_rows()).contains(
                (chain, (#[trigger] txs@[j]).hash@),
            )) ==> final(self).address_rows() == old(self).address_rows()
                && final(self).transaction_rows() == old(self).transaction_rows(),
            final(self).tag_table() == old(self).tag_table(),
            final(self).service_table() == old(self).service_table(),
    {
        let ghost stored = transaction_keys(self.transactions@);
        let ghost old_addresses = self.addresses@;
        let ghost old_transactions = self.transactions@;
        proof {
            lemma_fresh(stored, chain, txs@);
        }
        let ghost f = fresh_inputs(stored, chain, txs@);
        let mut fresh: Vec<usize> = Vec::new();
        let mut i: usize = 0;
        while i < txs.len()
            invariant
                i <= txs@.len(),
                self.wf(),
                stored == transaction_keys(self.transactions@),
                fresh_inputs(stored, chain, txs@.subrange(0, i as int)) == fresh@.map_values(|k: usize| txs@[k as int]),
                forall|m: int| 0 <= m < fresh@.len() ==> #[trigger] fresh@[m] < txs@.len(),
            decreases txs@.len() - i,
        {
            let t = &txs[i];
            let known = self.has_transaction(chain, &t.hash);
            let ghost prev = fresh@.map_values(|k: usize| txs@[k as int]);
            let mut dup = false;
            let mut m: usize = 0;
            while m < fresh.len()
                invariant
                    m <= fresh@.len(),
                    forall|q: int| 0 <= q < fresh@.len() ==> #[trigger] fresh@[q] < txs@.len(),
                    prev == fresh@.map_values(|k: usize| txs@[k as int]),
                    dup == exists|q: int| 0 <= q < m && input_hashes(prev)[q] == t.hash@,
                decreases fresh@.len() - m,
            {
                if same_bytes(&txs[fresh[m]].hash, &t.hash) {
                    dup = true;
                }
                proof {
                    assert(input_hashes(prev)[m as int] == txs@[fresh@[m as int] as int].hash@);
                }
                m = m + 1;
            }
            proof {
                let d = txs@.subrange(0, i + 1);
                assert(d.drop_last() =~= txs@.subrange(0, i as int));
                assert(d.last() == txs@[i as int]);
                if input_hashes(prev).contains(t.hash@) {
                    let q = choose|q: int| 0 <= q < input_hashes(prev).len() && input_hashes(prev)[q] == t.hash@;
                }
            }
            if !known && !dup {
                fresh.push(i);
                proof {
                    assert(fresh@.map_values(|k: usize| txs@[k as int]) =~= prev.push(txs@[i as int]));
                }
            }
            i = i + 1;
        }
        proof {
            assert(txs@.subrange(0, txs@.len() as int) =~= txs@);
        }
        let ghost fs = fresh@.map_values(|k: usize| txs@[k as int]);
        assert(fs == f);
        let refs = referenced_hashes(txs, &fresh);
        self.ensure_addresses(chain, &refs);
        let ids = self.resolve_ids(chain, &refs);
        let ghost mid_transactions = self.transactions@;
        let mut k: usize = 0;
        while k < fresh.len()
            invariant
                k <= fresh@.len(),
                fs == f,
                fs == fresh@.map_values(|k: usize| txs@[k as int]),
                forall|m: int| 0 <= m < fresh@.len() ==> #[trigger] fresh@[m] < txs@.len(),
                hash_views(refs@) == referenced(fs),
                forall|h: Seq<u8>| #[trigger] id_for(ids@, h) == if hash_views(refs@).contains(h) {
                    address_id(self.addresses@, chain, h)
                } else {
                    None
                },
                addresses_wf(self.addresses@),
                self.transactions@.len() == old_transactions.len() + k,
                self.transactions@.subrange(0, old_transactions.len() as int) == old_transactions,
                transactions_wf(self.transactions@, self.addresses@.len() as int),
                old_transactions.len() + txs@.len() < i64::MAX,
                stored == transaction_keys(old_transactions),
                forall|q: int| 0 <= q < k ==> records_input(
                    #[trigger] self.transactions@[old_transactions.len() + q],
                    self.addresses@,
                    chain,
                    fs[q],
                ),
                self.tag_titles@ == old(self).tag_titles@,
                self.service_titles@ == old(self).service_titles@,
                input_hashes(fs).no_duplicates(),
                forall|q: int| 0 <= q < fs.len() ==> !stored.contains((chain, (#[trigger] fs[q]).hash@)),
                fs.len() <= txs@.len(),
                old_addresses == old(self).addresses@,
                address_keys(self.addresses@) == ensured(address_keys(old_addresses), chain, hash_views(refs@)),
                self.addresses@.len() >= old_addresses.len(),
                self.addresses@.subrange(0, old_addresses.len() as int) == old_addresses,
                forall|i: int| old_addresses.len() <= i < self.addresses@.len() ==> {
                    &&& (#[trigger] self.addresses@[i]).title is None
                    &&& self.addresses@[i].tags@.len() == 0
                    &&& self.addresses@[i].services@.len() == 0
                },
            decreases fresh@.len() - k,
        {
            let t = &txs[fresh[k]];
            proof {
                assert(fs[k as int] == *t);
                lemma_referenced_holds(fs, k as int);
            }
            let from = resolve_side(&t.from, &ids);
            let to = resolve_side(&t.to, &ids);
            proof {
                assert forall|x: i64| from@.contains(x) <==> names_address(self.addresses@, chain, t.from@, x) by {
                    if from@.contains(x) {
                        let j = choose|j: int| 0 <= j < t.from@.len() && id_for(ids@, (#[trigger] t.from@[j])@) == Some(x);
                        assert(hash_views(refs@).contains(t.from@[j]@));
                    }
                    if names_address(self.addresses@, chain, t.from@, x) {
                        let j = choose|j: int| 0 <= j < t.from@.len() && address_id(self.addresses@, chain, (#[trigger] t.from@[j])@) == Some(x);
                        assert(hash_views(refs@).contains(t.from@[j]@));
                        assert(id_for(ids@, t.from@[j]@) == Some(x));
                    }
                }
                assert forall|x: i64| to@.contains(x) <==> names_address(self.addresses@, chain, t.to@, x) by {
                    if to@.contains(x) {
                        let j = choose|j: int| 0 <= j < t.to@.len() && id_for(ids@, (#[trigger] t.to@[j])@) == Some(x);
                        assert(hash_views(refs@).contains(t.to@[j]@));
                    }
                    if names_address(self.addresses@, chain, t.to@, x) {
                        let j = choose|j: int| 0 <= j < t.to@.len() && address_id(self.addresses@, chain, (#[trigger] t.to@[j])@) == Some(x);
                        assert(hash_views(refs@).contains(t.to@[j]@));
                        assert(id_for(ids@, t.to@[j]@) == Some(x));
                    }
                }
                assert forall|q: int| 0 <= q < from@.len() implies 1 <= #[trigger] from@[q] <= self.addresses@.len() by {
                    assert(from@.contains(from@[q]));
                    let j = choose|j: int| 0 <= j < t.from@.len() && address_id(self.addresses@, chain, (#[trigger] t.from@[j])@) == Some(from@[q]);
                    lemma_address_id_key(self.addresses@, chain, t.from@[j]@);
                }
                assert forall|q: int| 0 <= q < to@.len() implies 1 <= #[trigger] to@[q] <= self.addresses@.len() by {
                    assert(to@.contains(to@[q]));
                    let j = choose|j: int| 0 <= j < t.to@.len() && address_id(self.addresses@, chain, (#[trigger] t.to@[j])@) == Some(to@[q]);
                    lemma_address_id_key(self.addresses@, chain, t.to@[j]@);
                }
                assert forall|q: int| 0 <= q < self.transactions@.len() implies transaction_keys(self.transactions@)[q] != (chain, t.hash@) by {
                    if q < old_transactions.len() {
                        assert(self.transactions@[q] == old_transactions[q]);
                        assert(transaction_keys(old_transactions)[q] == transaction_keys(self.transactions@)[q]);
                        assert(!stored.contains((chain, fs[k as int].hash@)));
                        assert(stored[q] == transaction_keys(old_transactions)[q]);
                    } else {
                        let p = q - old_transactions.len();
                        assert(records_input(self.transactions@[old_transactions.len() + p], self.addresses@, chain, fs[p]));
                        assert(input_hashes(fs)[p] == fs[p].hash@);
                        assert(input_hashes(fs)[k as int] == fs[k as int].hash@);
                    }
                }
            }
            let id = self.transactions.len() as i64 + 1;
            let ghost before = self.transactions@;
            self.transactions.push(TransactionRecord {
                id,
                chain,
                hash: t.hash.clone(),
                amount: t.amount,
                from,
                to,
            });
            proof {
                assert(transaction_keys(self.transactions@) =~= transaction_keys(before).push((chain, t.hash@)));
                assert(self.transactions@.subrange(0, old_transactions.len() as int) =~= before.subrange(0, old_transactions.len() as int));
                assert forall|q: int| 0 <= q < k + 1 implies records_input(
                    #[trigger] self.transactions@[old_transactions.len() + q],
                    self.addresses@,
                    chain,
                    fs[q],
                ) by {
                    if q < k {
                        assert(self.transactions@[old_transactions.len() + q] == before[old_transactions.len() + q]);
                    }
                }
            }
            k = k + 1;
        }
        proof {
            lemma_ensured(address_keys(old_addresses), chain, referenced(fs));
            assert forall|j: int| 0 <= j < txs@.len() implies transaction_keys(self.transactions@).contains(
                (chain, (#[trigger] txs@[j]).hash@),
            ) by {
                if stored.contains((chain, txs@[j].hash@)) {
                    let q = choose|q: int| 0 <= q < stored.len() && stored[q] == (chain, txs@[j].hash@);
                    assert(self.transactions@[q] == old_transactions[q]);
                    assert(transaction_keys(self.transactions@)[q] == (chain, txs@[j].hash@));
                } else {
                    let q = choose|q: int| 0 <= q < input_hashes(fs).len() && input_hashes(fs)[q] == txs@[j].hash@;
                    assert(records_input(self.transactions@[old_transactions.len() + q], self.addresses@, chain, fs[q]));
                    assert(transaction_keys(self.transactions@)[old_transactions.len() + q] == (chain, txs@[j].hash@));
                }
            }
            if forall|j: int| 0 <= j < txs@.len() ==> stored.contains((chain, (#[trigger] txs@[j]).hash@)) {
                assert(fs.len() == 0);
                assert(referenced(fs) =~= Seq::<Seq<u8>>::empty());
                assert(address_keys(self.addresses@).len() == address_keys(old_addresses).len());
                assert(self.addresses@ =~= self.addresses@.subrange(0, old_addresses.len() as int));
                assert(self.transactions@ =~= self.transactions@.subrange(0, old_transactions.len() as int));
            }
        }
    }


    /// The id of the first address, on any chain, with this hash.
    pub fn owner_of(&self, hash: &Vec<u8>) -> (r: Option<i64>)
        requires
            self.wf(),
        ensures
            r == hash_owner(self.address_rows(), hash@),
    {
        proof {
            lemma_hash_owner(self.addresses@, hash@);
        }
        let mut k: usize = 0;
        while k < self.addresses.len()
            invariant
                k <= self.addresses@.len(),
                self.wf(),
                forall|m: int| 0 <= m < k ==> (#[trigger] self.addresses@[m]).hash@ != hash@,
            decreases self.addresses@.len() - k,
        {
            if same_bytes(&self.addresses[k].hash, hash) {
                proof {
                    lemma_hash_owner(self.addresses@, hash@);
                    if hash_owner(self.addresses@, hash@) is None {
                        assert(self.addresses@[k as int].hash@ == hash@);
                    } else {
                        let x = hash_owner(self.addresses@, hash@).unwrap();
                        if x - 1 < k {
                            assert(self.addresses@[x - 1].hash@ == hash@);
                        } else if x - 1 > k {
                            assert(self.addresses@[k as int].hash@ == hash@);
                        }
                    }
                }
                return Some(self.addresses[k].id);
            }
            k = k + 1;
        }
        proof {
            lemma_hash_owner(self.addresses@, hash@);
            if hash_owner(self.addresses@, hash@) is Some {
                let x = hash_owner(self.addresses@, hash@).unwrap();
                assert(self.addresses@[x - 1].hash@ == hash@);
            }
        }
        None
    }

    /// The sender and receiver ids of every transaction.
    fn links(&self) -> (r: Vec<Links>)
        ensures
            link_views(r@) == tx_links(self.transactions@),
    {
        let mut r: Vec<Links> = Vec::new();
        let mut k: usize = 0;
        while k < self.transactions.len()
            invariant
                k <= self.transactions@.len(),
                link_views(r@) == tx_links(self.transactions@.subrange(0, k as int)),
            decreases self.transactions@.len() - k,
        {
            let t = &self.transactions[k];
            let from = t.from.clone();
            let to = t.to.clone();
            proof {
                assert(from@ =~= t.from@);
                assert(to@ =~= t.to@);
            }
            let ghost before = r@;
            r.push(Links { from, to });
            proof {
                assert(self.transactions@.subrange(0, k + 1) =~= self.transactions@.subrange(0, k as int).push(*t));
                assert(r@ == before.push(Links { from, to }));
                assert(link_views(r@) =~= link_views(before).push((t.from@, t.to@)));
                assert(tx_links(self.transactions@.subrange(0, k + 1)) =~= tx_links(self.transactions@.subrange(0, k as int)).push((t.from@, t.to@)));
                assert(link_views(r@) =~= tx_links(self.transactions@.subrange(0, k + 1)));
            }
            k = k + 1;
        }
        proof {
            assert(self.transactions@.subrange(0, self.transactions@.len() as int) =~= self.transactions@);
        }
        r
    }

    /// The address row with id `id`.
    fn row_at(&self, id: i64) -> (r: &AddressRecord)
        requires
            self.wf(),
            1 <= id <= self.address_rows().len(),
        ensures
            *r == self.address_rows()[id - 1],
    {
        let n = self.addresses.len();
        let idx: usize = (id - 1) as usize;
        assert(idx == id - 1);
        &self.addresses[idx]
    }

    /// What the relation analysis knows of the address `id`.
    fn private_of(&self, id: i64) -> (p: PrivAddress)
        requires
            self.wf(),
            1 <= id <= self.address_rows().len(),
        ensures
            private_matches(p, self.address_rows()[id - 1]),
    {
        let row = self.row_at(id);
        let title = shown_title(&row.title, &row.hash);
        PrivAddress {
            title,
            chain: row.chain,
            hash: row.hash.clone(),
            tags: row.tags.clone(),
            services: row.services.clone(),
        }
    }

    /// Adds to `dir` what the analysis knows of each address of `counted`.
    fn add_entries(&self, dir: &mut Vec<(i64, PrivAddress)>, counted: &Vec<(i64, u64)>)
        requires
            self.wf(),
            forall|i: int| 0 <= i < counted@.len() ==> 1 <= (#[trigger] counted@[i]).0 <= self.address_rows().len(),
            forall|k: int| 0 <= k < old(dir)@.len() ==> 1 <= (#[trigger] old(dir)@[k]).0 <= self.address_rows().len()
                && private_matches(old(dir)@[k].1, self.address_rows()[old(dir)@[k].0 - 1]),
        ensures
            forall|k: int| 0 <= k < final(dir)@.len() ==> 1 <= (#[trigger] final(dir)@[k]).0 <= self.address_rows().len()
                && private_matches(final(dir)@[k].1, self.address_rows()[final(dir)@[k].0 - 1]),
            final(dir)@.len() == old(dir)@.len() + counted@.len(),
            forall|k: int| 0 <= k < old(dir)@.len() ==> (#[trigger] final(dir)@[k]).0 == old(dir)@[k].0,
            forall|m: int| 0 <= m < counted@.len() ==> (#[trigger] final(dir)@[old(dir)@.len() + m]).0 == counted@[m].0,
    {
        let ghost start = dir@;
        let mut i: usize = 0;
        while i < counted.len()
            invariant
                i <= counted@.len(),
                self.wf(),
                forall|m: int| 0 <= m < counted@.len() ==> 1 <= (#[trigger] counted@[m]).0 <= self.address_rows().len(),
                forall|k: int| 0 <= k < dir@.len() ==> 1 <= (#[trigger] dir@[k]).0 <= self.address_rows().len()
                    && private_matches(dir@[k].1, self.address_rows()[dir@[k].0 - 1]),
                dir@.len() == start.len() + i,
                forall|k: int| 0 <= k < start.len() ==> (#[trigger] dir@[k]).0 == start[k].0,
                forall|m: int| 0 <= m < i ==> (#[trigger] dir@[start.len() + m]).0 == counted@[m].0,
            decreases counted@.len() - i,
        {
            let id = counted[i].0;
            let p = self.private_of(id);
            dir.push((id, p));
            i = i + 1;
        }
    }

    /// Appends, for each address of `counted`, its services (`true`) or tags
    /// with its count.
    fn add_weights(&self, out: &mut Vec<(Vec<i32>, u64)>, counted: &Vec<(i64, u64)>, services: bool)
        requires
            self.wf(),
            forall|i: int| 0 <= i < counted@.len() ==> 1 <= (#[trigger] counted@[i]).0 <= self.address_rows().len(),
        ensures
            label_views(final(out)@) == label_views(old(out)@) + weight_entries(counted@, self.address_rows(), services),
    {
        let ghost start = label_views(out@);
        let mut i: usize = 0;
        while i < counted.len()
            invariant
                i <= counted@.len(),
                self.wf(),
                forall|m: int| 0 <= m < counted@.len() ==> 1 <= (#[trigger] counted@[m]).0 <= self.address_rows().len(),
                label_views(out@) == start + weight_entries(counted@.subrange(0, i as int), self.address_rows(), services),
            decreases counted@.len() - i,
        {
            let (id, q) = counted[i];
            let row = self.row_at(id);
            let labels = if services { row.services.clone() } else { row.tags.clone() };
            let ghost before = out@;
            out.push((labels, q));
            proof {
                assert(*row == self.addresses@[counted@[i as int].0 - 1]);
                assert(out@ == before.push((labels, q)));
                assert(label_views(out@) =~= label_views(before).push((labels@, q)));
                assert(counted@.subrange(0, i + 1) =~= counted@.subrange(0, i as int).push(counted@[i as int]));
                assert(weight_entries(counted@.subrange(0, i + 1), self.address_rows(), services) =~= weight_entries(counted@.subrange(0, i as int), self.address_rows(), services).push((labels@, q)));
                assert(label_views(out@) =~= start + weight_entries(counted@.subrange(0, i + 1), self.address_rows(), services));
            }
            i = i + 1;
        }
        proof {
            assert(counted@.subrange(0, counted@.len() as int) =~= counted@);
        }
    }

    /// The first-degree relations of the address written `hex` (with or without
    /// a leading `0x`), looked up by hash on any chain: its counterparties in
    /// four ranked lists, with their titles, tags and services, and the ten most
    /// frequent tags and services among them. `None` where `hex` is not
    /// hexadecimal or no address has that hash.
    pub fn relation_human(&self, hex: &str) -> (r: Option<AddressRelationHuman>)
        requires
            self.wf(),
        ensures
            r is Some <==> is_hex_text(without_hex_prefix(hex@)) && hash_owner(
                self.address_rows(),
                hex_bytes_of(without_hex_prefix(hex@)),
            ) is Some,
            r matches Some(rel) ==> human_relation(
                rel,
                self.address_rows(),
                self.transaction_rows(),
                self.tag_table(),
                self.service_table(),
                hash_owner(self.address_rows(), hex_bytes_of(without_hex_prefix(hex@))).unwrap(),
            ),
    {
        let bytes = match decode_address_hex(hex) {
            Some(b) => b,
            None => return None,
        };
        let a = match self.owner_of(&bytes) {
            Some(a) => a,
            None => return None,
        };
        proof {
            lemma_hash_owner(self.addresses@, bytes@);
        }
        let links = self.links();
        let counts = process_query(&links, a);
        proof {
            crate::relation::lemma_counted_unique(counts.inputs@, link_views(links@), a, false, true);
            crate::relation::lemma_counted_unique(counts.outputs@, link_views(links@), a, true, false);
            crate::relation::lemma_counted_unique(counts.mixed_in@, link_views(links@), a, true, true);
            crate::relation::lemma_counted_unique(counts.mixed_out@, link_views(links@), a, false, false);
        }
        let ghost n = self.addresses@.len() as int;
        let ghost lv = link_views(links@);
        proof {
            assert forall|i: int, k: int| 0 <= i < lv.len() && 0 <= k < lv[i].0.len() implies 1 <= #[trigger] lv[i].0[k] <= n by {
                assert(lv[i].0 == self.transactions@[i].from@);
                assert(1 <= self.transactions@[i].from@[k] <= n);
            }
            assert forall|i: int, k: int| 0 <= i < lv.len() && 0 <= k < lv[i].1.len() implies 1 <= #[trigger] lv[i].1[k] <= n by {
                assert(lv[i].1 == self.transactions@[i].to@);
                assert(1 <= self.transactions@[i].to@[k] <= n);
            }
            assert forall|i: int| 0 <= i < counts.inputs@.len() implies 1 <= (#[trigger] counts.inputs@[i]).0 <= n by {
                lemma_pair_count_ids(lv, a, false, counts.inputs@[i].0, true, n);
            }
            assert forall|i: int| 0 <= i < counts.outputs@.len() implies 1 <= (#[trigger] counts.outputs@[i]).0 <= n by {
                lemma_pair_count_ids(lv, a, true, counts.outputs@[i].0, false, n);
            }
            assert forall|i: int| 0 <= i < counts.mixed_in@.len() implies 1 <= (#[trigger] counts.mixed_in@[i]).0 <= n by {
                lemma_pair_count_ids(lv, a, true, counts.mixed_in@[i].0, true, n);
            }
            assert forall|i: int| 0 <= i < counts.mixed_out@.len() implies 1 <= (#[trigger] counts.mixed_out@[i]).0 <= n by {
                lemma_pair_count_ids(lv, a, false, counts.mixed_out@[i].0, false, n);
            }
        }
        let mut dir: Vec<(i64, PrivAddress)> = Vec::new();
        let ghost d0 = dir@;
        self.add_entries(&mut dir, &counts.inputs);
        let ghost d1 = dir@;
        self.add_entries(&mut dir, &counts.outputs);
        let ghost d2 = dir@;
        self.add_entries(&mut dir, &counts.mixed_in);
        let ghost d3 = dir@;
        self.add_entries(&mut dir, &counts.mixed_out);
        let inputs = address_ref_human(&dir, &self.tag_titles, &self.service_titles, &counts.inputs);
        let outputs = address_ref_human(&dir, &self.tag_titles, &self.service_titles, &counts.outputs);
        let mixed_in = address_ref_human(&dir, &self.tag_titles, &self.service_titles, &counts.mixed_in);
        let mixed_out = address_ref_human(&dir, &self.tag_titles, &self.service_titles, &counts.mixed_out);
        let mut tag_entries: Vec<(Vec<i32>, u64)> = Vec::new();
        self.add_weights(&mut tag_entries, &counts.inputs, false);
        self.add_weights(&mut tag_entries, &counts.outputs, false);
        self.add_weights(&mut tag_entries, &counts.mixed_in, false);
        self.add_weights(&mut tag_entries, &counts.mixed_out, false);
        let mut service_entries: Vec<(Vec<i32>, u64)> = Vec::new();
        self.add_weights(&mut service_entries, &counts.inputs, true);
        self.add_weights(&mut service_entries, &counts.outputs, true);
        self.add_weights(&mut service_entries, &counts.mixed_in, true);
        self.add_weights(&mut service_entries, &counts.mixed_out, true);
        let tags = top_frequencies(&tag_entries, &self.tag_titles, FREQUENCY_LIMIT);
        let services = top_frequencies(&service_entries, &self.service_titles, FREQUENCY_LIMIT);
        let row = self.row_at(a);
        let hex_text = bytes_to_hex(&row.hash);
        let human = shown_title(&row.title, &row.hash);
        let rel = AddressRelationHuman {
            id: a,
            hex: hex_text,
            human,
            inputs,
            outputs,
            mixed_in,
            mixed_out,
            tags,
            services,
        };
        proof {
            assert(link_views(links@) =~= tx_links(self.transactions@));
            crate::relation::lemma_ranked_unique(ref_counts(rel.inputs@), counts.inputs@);
            crate::relation::lemma_ranked_unique(ref_counts(rel.outputs@), counts.outputs@);
            crate::relation::lemma_ranked_unique(ref_counts(rel.mixed_in@), counts.mixed_in@);
            crate::relation::lemma_ranked_unique(ref_counts(rel.mixed_out@), counts.mixed_out@);
            let all = counts.inputs@ + counts.outputs@ + counts.mixed_in@ + counts.mixed_out@;
            assert(weight_entries(all, self.addresses@, false) =~= weight_entries(counts.inputs@, self.addresses@, false)
                + weight_entries(counts.outputs@, self.addresses@, false) + weight_entries(counts.mixed_in@, self.addresses@, false)
                + weight_entries(counts.mixed_out@, self.addresses@, false));
            assert(weight_entries(all, self.addresses@, true) =~= weight_entries(counts.inputs@, self.addresses@, true)
                + weight_entries(counts.outputs@, self.addresses@, true) + weight_entries(counts.mixed_in@, self.addresses@, true)
                + weight_entries(counts.mixed_out@, self.addresses@, true));
            assert(label_views(tag_entries@) =~= weight_entries(all, self.addresses@, false));
            assert(label_views(service_entries@) =~= weight_entries(all, self.addresses@, true));
            assert forall|i: int| 0 <= i < rel.inputs@.len() implies shows_row(#[trigger] rel.inputs@[i], self.addresses@, self.tag_titles@, self.service_titles@) by {
                assert(describes_human(rel.inputs@[i], counts.inputs@[i], dir@, self.tag_titles@, self.service_titles@));
                assert(d1[d0.len() + i].0 == counts.inputs@[i].0);
                assert(dir@[d0.len() + i].0 == counts.inputs@[i].0);
                lemma_entry_matches(dir@, self.addresses@, counts.inputs@[i].0);
            }
            assert forall|i: int| 0 <= i < rel.outputs@.len() implies shows_row(#[trigger] rel.outputs@[i], self.addresses@, self.tag_titles@, self.service_titles@) by {
                assert(describes_human(rel.outputs@[i], counts.outputs@[i], dir@, self.tag_titles@, self.service_titles@));
                assert(d2[d1.len() + i].0 == counts.outputs@[i].0);
                assert(dir@[d1.len() + i].0 == counts.outputs@[i].0);
                lemma_entry_matches(dir@, self.addresses@, counts.outputs@[i].0);
            }
            assert forall|i: int| 0 <= i < rel.mixed_in@.len() implies shows_row(#[trigger] rel.mixed_in@[i], self.addresses@, self.tag_titles@, self.service_titles@) by {
                assert(describes_human(rel.mixed_in@[i], counts.mixed_in@[i], dir@, self.tag_titles@, self.service_titles@));
                assert(d3[d2.len() + i].0 == counts.mixed_in@[i].0);
                assert(dir@[d2.len() + i].0 == counts.mixed_in@[i].0);
                lemma_entry_matches(dir@, self.addresses@, counts.mixed_in@[i].0);
            }
            assert forall|i: int| 0 <= i < rel.mixed_out@.len() implies shows_row(#[trigger] rel.mixed_out@[i], self.addresses@, self.tag_titles@, self.service_titles@) by {
                assert(describes_human(rel.mixed_out@[i], counts.mixed_out@[i], dir@, self.tag_titles@, self.service_titles@));
                assert(dir@[d3.len() + i].0 == counts.mixed_out@[i].0);
                lemma_entry_matches(dir@, self.addresses@, counts.mixed_out@[i].0);
            }
        }
        Some(rel)
    }

    /// The first-degree relations of the address written `hex` (with or without
    /// a leading `0x`), by ids: its counterparties in four ranked lists, with
    /// their tag and service ids, and the ids of the ten most frequent tags and
    /// services among them. `None` where `hex` is not hexadecimal or no address
    /// has that hash.
    pub fn relation(&self, hex: &str) -> (r: Option<AddressRelation>)
        requires
            self.wf(),
        ensures
            r is Some <==> is_hex_text(without_hex_prefix(hex@)) && hash_owner(
                self.address_rows(),
                hex_bytes_of(without_hex_prefix(hex@)),
            ) is Some,
            r matches Some(rel) ==> id_relation(
                rel,
                self.address_rows(),
                self.transaction_rows(),
                self.tag_table(),
                self.service_table(),
                hash_owner(self.address_rows(), hex_bytes_of(without_hex_prefix(hex@))).unwrap(),
            ),
    {
        let bytes = match decode_address_hex(hex) {
            Some(b) => b,
            None => return None,
        };
        let a = match self.owner_of(&bytes) {
            Some(a) => a,
            None => return None,
        };
        proof {
            lemma_hash_owner(self.addresses@, bytes@);
        }
        let links = self.links();
        let counts = process_query(&links, a);
        proof {
            crate::relation::lemma_counted_unique(counts.inputs@, link_views(links@), a, false, true);
            crate::relation::lemma_counted_unique(counts.outputs@, link_views(links@), a, true, false);
            crate::relation::lemma_counted_unique(counts.mixed_in@, link_views(links@), a, true, true);
            crate::relation::lemma_counted_unique(counts.mixed_out@, link_views(links@), a, false, false);
        }
        let ghost n = self.addresses@.len() as int;
        let ghost lv = link_views(links@);
        proof {
            assert forall|i: int, k: int| 0 <= i < lv.len() && 0 <= k < lv[i].0.len() implies 1 <= #[trigger] lv[i].0[k] <= n by {
                assert(lv[i].0 == self.transactions@[i].from@);
                assert(1 <= self.transactions@[i].from@[k] <= n);
            }
            assert forall|i: int, k: int| 0 <= i < lv.len() && 0 <= k < lv[i].1.len() implies 1 <= #[trigger] lv[i].1[k] <= n by {
                assert(lv[i].1 == self.transactions@[i].to@);
                assert(1 <= self.transactions@[i].to@[k] <= n);
            }
            assert forall|i: int| 0 <= i < counts.inputs@.len() implies 1 <= (#[trigger] counts.inputs@[i]).0 <= n by {
                lemma_pair_count_ids(lv, a, false, counts.inputs@[i].0, true, n);
            }
            assert forall|i: int| 0 <= i < counts.outputs@.len() implies 1 <= (#[trigger] counts.outputs@[i]).0 <= n by {
                lemma_pair_count_ids(lv, a, true, counts.outputs@[i].0, false, n);
            }
            assert forall|i: int| 0 <= i < counts.mixed_in@.len() implies 1 <= (#[trigger] counts.mixed_in@[i]).0 <= n by {
                lemma_pair_count_ids(lv, a, true, counts.mixed_in@[i].0, true, n);
            }
            assert forall|i: int| 0 <= i < counts.mixed_out@.len() implies 1 <= (#[trigger] counts.mixed_out@[i]).0 <= n by {
                lemma_pair_count_ids(lv, a, false, counts.mixed_out@[i].0, false, n);
            }
        }
        let mut dir: Vec<(i64, PrivAddress)> = Vec::new();
        let ghost d0 = dir@;
        self.add_entries(&mut dir, &counts.inputs);
        let ghost d1 = dir@;
        self.add_entries(&mut dir, &counts.outputs);
        let ghost d2 = dir@;
        self.add_entries(&mut dir, &counts.mixed_in);
        let ghost d3 = dir@;
        self.add_entries(&mut dir, &counts.mixed_out);
        let inputs = address_ref(&dir, &counts.inputs);
        let outputs = address_ref(&dir, &counts.outputs);
        let mixed_in = address_ref(&dir, &counts.mixed_in);
        let mixed_out = address_ref(&dir, &counts.mixed_out);
        let mut tag_entries: Vec<(Vec<i32>, u64)> = Vec::new();
        self.add_weights(&mut tag_entries, &counts.inputs, false);
        self.add_weights(&mut tag_entries, &counts.outputs, false);
        self.add_weights(&mut tag_entries, &counts.mixed_in, false);
        self.add_weights(&mut tag_entries, &counts.mixed_out, false);
        let mut service_entries: Vec<(Vec<i32>, u64)> = Vec::new();
        self.add_weights(&mut service_entries, &counts.inputs, true);
        self.add_weights(&mut service_entries, &counts.outputs, true);
        self.add_weights(&mut service_entries, &counts.mixed_in, true);
        self.add_weights(&mut service_entries, &counts.mixed_out, true);
        let tags = top_frequencies(&tag_entries, &self.tag_titles, FREQUENCY_LIMIT);
        let services = top_frequencies(&service_entries, &self.service_titles, FREQUENCY_LIMIT);
        let row = self.row_at(a);
        let hex_text = bytes_to_hex(&row.hash);
        let human = shown_title(&row.title, &row.hash);
        let rel = AddressRelation {
            id: a,
            hex: hex_text,
            human,
            inputs,
            outputs,
            mixed_in,
            mixed_out,
            tags: frequency_id_list(&tags),
            services: frequency_id_list(&services),
        };
        proof {
            assert(link_views(links@) =~= tx_links(self.transactions@));
            crate::relation::lemma_ranked_unique(ref_id_counts(rel.inputs@), counts.inputs@);
            crate::relation::lemma_ranked_unique(ref_id_counts(rel.outputs@), counts.outputs@);
            crate::relation::lemma_ranked_unique(ref_id_counts(rel.mixed_in@), counts.mixed_in@);
            crate::relation::lemma_ranked_unique(ref_id_counts(rel.mixed_out@), counts.mixed_out@);
            let all = counts.inputs@ + counts.outputs@ + counts.mixed_in@ + counts.mixed_out@;
            assert(weight_entries(all, self.addresses@, false) =~= weight_entries(counts.inputs@, self.addresses@, false)
                + weight_entries(counts.outputs@, self.addresses@, false) + weight_entries(counts.mixed_in@, self.addresses@, false)
                + weight_entries(counts.mixed_out@, self.addresses@, false));
            assert(weight_entries(all, self.addresses@, true) =~= weight_entries(counts.inputs@, self.addresses@, true)
                + weight_entries(counts.outputs@, self.addresses@, true) + weight_entries(counts.mixed_in@, self.addresses@, true)
                + weight_entries(counts.mixed_out@, self.addresses@, true));
            assert(label_views(tag_entries@) =~= weight_entries(all, self.addresses@, false));
            assert(label_views(service_entries@) =~= weight_entries(all, self.addresses@, true));
            assert(frequency_ids(tags@) == rel.tags@);
            assert(frequency_ids(services@) == rel.services@);
            assert forall|i: int| 0 <= i < rel.inputs@.len() implies shows_row_ids(#[trigger] rel.inputs@[i], self.addresses@) by {
                assert(describes(rel.inputs@[i], counts.inputs@[i], dir@));
                assert(d1[d0.len() + i].0 == counts.inputs@[i].0);
                assert(dir@[d0.len() + i].0 == counts.inputs@[i].0);
                lemma_entry_matches(dir@, self.addresses@, counts.inputs@[i].0);
            }
            assert forall|i: int| 0 <= i < rel.outputs@.len() implies shows_row_ids(#[trigger] rel.outputs@[i], self.addresses@) by {
                assert(describes(rel.outputs@[i], counts.outputs@[i], dir@));
                assert(d2[d1.len() + i].0 == counts.outputs@[i].0);
                assert(dir@[d1.len() + i].0 == counts.outputs@[i].0);
                lemma_entry_matches(dir@, self.addresses@, counts.outputs@[i].0);
            }
            assert forall|i: int| 0 <= i < rel.mixed_in@.len() implies shows_row_ids(#[trigger] rel.mixed_in@[i], self.addresses@) by {
                assert(describes(rel.mixed_in@[i], counts.mixed_in@[i], dir@));
                assert(d3[d2.len() + i].0 == counts.mixed_in@[i].0);
                assert(dir@[d2.len() + i].0 == counts.mixed_in@[i].0);
                lemma_entry_matches(dir@, self.addresses@, counts.mixed_in@[i].0);
            }
            assert forall|i: int| 0 <= i < rel.mixed_out@.len() implies shows_row_ids(#[trigger] rel.mixed_out@[i], self.addresses@) by {
                assert(describes(rel.mixed_out@[i], counts.mixed_out@[i], dir@));
                assert(dir@[d3.len() + i].0 == counts.mixed_out@[i].0);
                lemma_entry_matches(dir@, self.addresses@, counts.mixed_out@[i].0);
            }
        }
        Some(rel)
    }


    /// The address id of the output that `input` spends, where that output is
    /// stored on `chain`.
    pub fn spent_output_of(&self, chain: i32, input: &CardanoInput) -> (r: Option<i64>)
        ensures
            r == spent_output(self.transaction_rows(), chain, input.tx_id@, input.index),
    {
        let h = match decode_hex(input.tx_id.as_str()) {
            Some(h) => h,
            None => return None,
        };
        let mut k: usize = self.transactions.len();
        assert(self.transactions@.subrange(0, k as int) =~= self.transactions@);
        while k > 0
            invariant
                k <= self.transactions@.len(),
                h@ == hex_bytes_of(input.tx_id@),
                is_hex_text(input.tx_id@),
                tx_position(self.transactions@.subrange(0, k as int), chain, h@) == tx_position(self.transactions@, chain, h@),
            decreases k,
        {
            proof {
                assert(self.transactions@.subrange(0, k as int).drop_last() =~= self.transactions@.subrange(0, k - 1));
            }
            let row = &self.transactions[k - 1];
            if row.chain == chain && same_bytes(&row.hash, &h) {
                if input.index < row.to.len() as u64 {
                    return Some(row.to[input.index as usize]);
                }
                return None;
            }
            k = k - 1;
        }
        None
    }

    /// Stores a block of a Cardano node on `chain`: first the addresses of all
    /// its outputs, then each of its transactions that `chain` lacks, in order.
    /// A transaction's receivers are its outputs' address ids in output order;
    /// its senders are the ids of the outputs that its inputs spend, where those
    /// are stored, in input order, each once. A transaction whose hash is not hexadecimal is
    /// skipped.
    pub fn ingest_block(&mut self, chain: i32, block: &CardanoBlock)
        requires
            old(self).wf(),
            block.transactions matches Some(txs) ==> old(self).address_rows().len() + output_count(txs@) < i64::MAX
                && old(self).transaction_rows().len() + txs@.len() < i64::MAX,
        ensures
            final(self).wf(),
            final(self).tag_table() == old(self).tag_table(),
            final(self).service_table() == old(self).service_table(),
            block.transactions is None ==> final(self).address_rows() == old(self).address_rows()
                && final(self).transaction_rows() == old(self).transaction_rows(),
            block.transactions matches Some(txs) ==> {
                let f = fresh_block(transaction_keys(old(self).transaction_rows()), chain, txs@);
                let n = old(self).transaction_rows().len();
                &&& address_keys(final(self).address_rows()) == ensured(
                    address_keys(old(self).address_rows()),
                    chain,
                    block_outputs(txs@),
                )
                &&& final(self).address_rows().len() >= old(self).address_rows().len()
                &&& final(self).address_rows().subrange(0, old(self).address_rows().len() as int)
                    == old(self).address_rows()
                &&& final(self).transaction_rows().len() == n + f.len()
                &&& final(self).transaction_rows().subrange(0, n as int) == old(self).transaction_rows()
                &&& forall|k: int| 0 <= k < f.len() ==> records_block_tx(
                    #[trigger] final(self).transaction_rows()[n + k],
                    final(self).transaction_rows().subrange(0, n + k),
                    final(self).address_rows(),
                    chain,
                    f[k],
                )
            },
    {
        let txs = match &block.transactions {
            Some(t) => t,
            None => return,
        };
        let mut outs: Vec<Vec<u8>> = Vec::new();
        let mut i: usize = 0;
        while i < txs.len()
            invariant
                i <= txs@.len(),
                hash_views(outs@) == block_outputs(txs@.subrange(0, i as int)),
            decreases txs@.len() - i,
        {
            let t = &txs[i];
            let ghost base = hash_views(outs@);
            let mut j: usize = 0;
            while j < t.outputs.len()
                invariant
                    j <= t.outputs@.len(),
                    hash_views(outs@) == base + t.outputs@.subrange(0, j as int).map_values(|o: String| address_bytes(o@)),
                decreases t.outputs@.len() - j,
            {
                let b = address_to_bytes(t.outputs[j].as_str());
                let ghost before = outs@;
                outs.push(b);
                proof {
                    assert(hash_views(outs@) =~= hash_views(before).push(b@));
                    assert(t.outputs@.subrange(0, j + 1).map_values(|o: String| address_bytes(o@)) =~= t.outputs@.subrange(
                        0,
                        j as int,
                    ).map_values(|o: String| address_bytes(o@)).push(address_bytes(t.outputs@[j as int]@)));
                }
                j = j + 1;
            }
            proof {
                assert(t.outputs@.subrange(0, t.outputs@.len() as int) =~= t.outputs@);
                let s = txs@.subrange(0, i + 1);
                assert(s.drop_last() =~= txs@.subrange(0, i as int));
                assert(s.last() == *t);
                assert(hash_views(outs@) =~= block_outputs(s));
            }
            i = i + 1;
        }
        proof {
            assert(txs@.subrange(0, txs@.len() as int) =~= txs@);
            lemma_output_count(txs@);
        }
        let ghost old_addresses = self.addresses@;
        let ghost n = self.transactions@.len();
        let ghost stored = transaction_keys(self.transactions@);
        self.ensure_addresses(chain, &outs);
        proof {
            lemma_ensured(address_keys(old_addresses), chain, hash_views(outs@));
        }
        let mut i: usize = 0;
        while i < txs.len()
            invariant
                i <= txs@.len(),
                addresses_wf(self.addresses@),
                transactions_wf(self.transactions@, self.addresses@.len() as int),
                address_keys(self.addresses@) == ensured(address_keys(old_addresses), chain, block_outputs(txs@)),
                forall|m: int| 0 <= m < block_outputs(txs@).len() ==> address_keys(self.addresses@).contains((chain, #[trigger] block_outputs(txs@)[m])),
                self.addresses@.len() >= old_addresses.len(),
                self.addresses@.subrange(0, old_addresses.len() as int) == old_addresses,
                old_addresses == old(self).addresses@,
                n == old(self).transactions@.len(),
                n + txs@.len() < i64::MAX,
                stored == transaction_keys(old(self).transactions@),
                self.transactions@.len() == n + fresh_block(stored, chain, txs@.subrange(0, i as int)).len(),
                self.transactions@.len() <= n + i,
                self.transactions@.subrange(0, n as int) == old(self).transactions@,
                forall|k: int| 0 <= k < fresh_block(stored, chain, txs@.subrange(0, i as int)).len() ==> {
                    &&& records_block_tx(
                        #[trigger] self.transactions@[n + k],
                        self.transactions@.subrange(0, n + k),
                        self.addresses@,
                        chain,
                        fresh_block(stored, chain, txs@.subrange(0, i as int))[k],
                    )
                },
                self.tag_titles@ == old(self).tag_titles@,
                self.service_titles@ == old(self).service_titles@,
            decreases txs@.len() - i,
        {
            let t = &txs[i];
            let ghost prev = fresh_block(stored, chain, txs@.subrange(0, i as int));
            proof {
                let s = txs@.subrange(0, i + 1);
                assert(s.drop_last() =~= txs@.subrange(0, i as int));
                assert(s.last() == *t);
                // the keys now stored are the old ones and those of the fresh transactions so far
                assert forall|q: int| 0 <= q < self.transactions@.len() implies transaction_keys(self.transactions@)[q] == if q < n {
                    stored[q]
                } else {
                    (chain, hex_bytes_of(prev[q - n].hash@))
                } by {
                    if q < n {
                        assert(self.transactions@[q] == old(self).transactions@[q]);
                    } else {
                        assert(records_block_tx(self.transactions@[n + (q - n)], self.transactions@.subrange(0, n + (q - n)), self.addresses@, chain, prev[q - n]));
                    }
                }
            }
            let h = match decode_hex(t.hash.as_str()) {
                Some(h) => h,
                None => {
                    i = i + 1;
                    continue;
                },
            };
            let known = self.has_transaction(chain, &h);
            proof {
                let pv = prev.map_values(|p: CardanoTx| hex_bytes_of(p.hash@));
                if stored.contains((chain, h@)) {
                    let q = choose|q: int| 0 <= q < stored.len() && stored[q] == (chain, h@);
                    assert(transaction_keys(self.transactions@)[q] == (chain, h@));
                }
                if pv.contains(h@) {
                    let q = choose|q: int| 0 <= q < pv.len() && pv[q] == h@;
                    assert(transaction_keys(self.transactions@)[n + q] == (chain, h@));
                }
                if known {
                    let q = choose|q: int| 0 <= q < self.transactions@.len() && transaction_keys(self.transactions@)[q] == (chain, h@);
                    if q < n {
                        assert(stored[q] == (chain, h@));
                    } else {
                        assert(pv[q - n] == h@);
                    }
                }
            }
            if known {
                i = i + 1;
                continue;
            }
            proof {
                lemma_block_outputs_hold(txs@, i as int);
            }
            let mut to: Vec<i64> = Vec::new();
            let mut j: usize = 0;
            while j < t.outputs.len()
                invariant
                    j <= t.outputs@.len(),
                    i < txs@.len(),
                    *t == txs@[i as int],
                    addresses_wf(self.addresses@),
                    transactions_wf(self.transactions@, self.addresses@.len() as int),
                    forall|m: int| 0 <= m < block_outputs(txs@).len() ==> address_keys(self.addresses@).contains((chain, #[trigger] block_outputs(txs@)[m])),
                    forall|k: int| 0 <= k < txs@[i as int].outputs@.len() ==> block_outputs(txs@).contains(address_bytes((#[trigger] txs@[i as int].outputs@[k])@)),
                    to@.len() == j,
                    forall|k: int| 0 <= k < j ==> Some(#[trigger] to@[k]) == address_id(self.addresses@, chain, address_bytes(t.outputs@[k]@)),
                    forall|k: int| 0 <= k < j ==> 1 <= #[trigger] to@[k] <= self.addresses@.len(),
                decreases t.outputs@.len() - j,
            {
                let b = address_to_bytes(t.outputs[j].as_str());
                let found = self.find_address(chain, &b);
                proof {
                    assert(block_outputs(txs@).contains(b@));
                    let m = choose|m: int| 0 <= m < block_outputs(txs@).len() && block_outputs(txs@)[m] == b@;
                    assert(address_keys(self.addresses@).contains((chain, block_outputs(txs@)[m])));
                    lemma_address_id_key(self.addresses@, chain, b@);
                }
                let id = match found {
                    Some(id) => id,
                    None => {
                        proof {
                            assert(false);
                        }
                        0
                    },
                };
                to.push(id);
                j = j + 1;
            }
            let mut from: Vec<i64> = Vec::new();
            let mut j: usize = 0;
            while j < t.inputs.len()
                invariant
                    j <= t.inputs@.len(),
                    transactions_wf(self.transactions@, self.addresses@.len() as int),
                    from@ == block_senders(self.transactions@, chain, t.inputs@.subrange(0, j as int)),
                    forall|k: int| 0 <= k < from@.len() ==> 1 <= #[trigger] from@[k] <= self.addresses@.len(),
                decreases t.inputs@.len() - j,
            {
                let found = self.spent_output_of(chain, &t.inputs[j]);
                let ghost before = from@;
                match found {
                    Some(x) => {
                        proof {
                            let ip = t.inputs@[j as int];
                            lemma_tx_position(self.transactions@, chain, hex_bytes_of(ip.tx_id@));
                            let q = tx_position(self.transactions@, chain, hex_bytes_of(ip.tx_id@)).unwrap();
                            assert(1 <= self.transactions@[q].to@[ip.index as int] <= self.addresses@.len());
                        }
                        push_new(&mut from, x);
                    },
                    None => {},
                }
                proof {
                    let s = t.inputs@.subrange(0, j + 1);
                    assert(s.drop_last() =~= t.inputs@.subrange(0, j as int));
                    assert(s.last() == t.inputs@[j as int]);
                }
                j = j + 1;
            }
            let id = self.transactions.len() as i64 + 1;
            let ghost before = self.transactions@;
            proof {
                assert(t.inputs@.subrange(0, t.inputs@.len() as int) =~= t.inputs@);
                assert forall|q: int| 0 <= q < before.len() implies transaction_keys(before)[q] != (chain, h@) by {}
            }
            self.transactions.push(TransactionRecord {
                id,
                chain,
                hash: h,
                amount: None,
                from,
                to,
            });
            proof {
                let s = txs@.subrange(0, i + 1);
                assert(fresh_block(stored, chain, s) == prev.push(*t));
                assert(transaction_keys(self.transactions@) =~= transaction_keys(before).push((chain, h@)));
                assert(self.transactions@.subrange(0, n as int) =~= before.subrange(0, n as int));
                assert(self.transactions@.subrange(0, before.len() as int) =~= before);
                assert forall|k: int| 0 <= k < prev.len() + 1 implies records_block_tx(
                    #[trigger] self.transactions@[n + k],
                    self.transactions@.subrange(0, n + k),
                    self.addresses@,
                    chain,
                    prev.push(*t)[k],
                ) by {
                    if k < prev.len() {
                        assert(self.transactions@[n + k] == before[n + k]);
                        assert(self.transactions@.subrange(0, n + k) =~= before.subrange(0, n + k));
                    }
                }
            }
            i = i + 1;
        }
        proof {
            assert(txs@.subrange(0, txs@.len() as int) =~= txs@);
        }
    }


    /// The number of address rows.
    pub fn address_count(&self) -> (r: usize)
        ensures
            r == self.address_rows().len(),
    {
        self.addresses.len()
    }

    /// The number of transaction rows.
    pub fn transaction_count(&self) -> (r: usize)
        ensures
            r == self.transaction_rows().len(),
    {
        self.transactions.len()
    }

    /// The address row with id `id`.
    pub fn address(&self, id: i64) -> (r: Option<&AddressRecord>)
        requires
            self.wf(),
        ensures
            1 <= id <= self.address_rows().len() ==> r == Some(&self.address_rows()[id - 1]),
            !(1 <= id <= self.address_rows().len()) ==> r is None,
    {
        if id >= 1 && id <= self.addresses.len() as i64 {
            Some(self.row_at(id))
        } else {
            None
        }
    }

    /// The transaction row with this chain and hash.
    pub fn transaction(&self, chain: i32, hash: &Vec<u8>) -> (r: Option<&TransactionRecord>)
        ensures
            r matches Some(t) ==> tx_position(self.transaction_rows(), chain, hash@) matches Some(i)
                && *t == self.transaction_rows()[i],
            r is None ==> tx_position(self.transaction_rows(), chain, hash@) is None,
    {
        let mut k: usize = self.transactions.len();
        assert(self.transactions@.subrange(0, k as int) =~= self.transactions@);
        while k > 0
            invariant
                k <= self.transactions@.len(),
                tx_position(self.transactions@.subrange(0, k as int), chain, hash@) == tx_position(self.transactions@, chain, hash@),
            decreases k,
        {
            proof {
                assert(self.transactions@.subrange(0, k as int).drop_last() =~= self.transactions@.subrange(0, k - 1));
            }
            let row = &self.transactions[k - 1];
            if row.chain == chain && same_bytes(&row.hash, hash) {
                return Some(row);
            }
            k = k - 1;
        }
        None
    }

    /// Gives the address `id` a title, tags and services, as the catalogue
    /// assigns them. Nothing changes where there is no such address.
    pub fn set_address_details(&mut self, id: i64, title: Option<String>, tags: Vec<i32>, services: Vec<i32>)
        requires
            old(self).wf(),
        ensures
            final(self).wf(),
            final(self).address_rows().len() == old(self).address_rows().len(),
            forall|i: int| 0 <= i < final(self).address_rows().len() && i != id - 1 ==> #[trigger] final(self).address_rows()[i]
                == old(self).address_rows()[i],
            1 <= id <= old(self).address_rows().len() ==> {
                let r = final(self).address_rows()[id - 1];
                let o = old(self).address_rows()[id - 1];
                &&& r.id == o.id && r.chain == o.chain && r.hash@ == o.hash@
                &&& r.title == title && r.tags == tags && r.services == services
            },
            !(1 <= id <= old(self).address_rows().len()) ==> final(self).address_rows() == old(self).address_rows(),
            final(self).transaction_rows() == old(self).transaction_rows(),
            final(self).tag_table() == old(self).tag_table(),
            final(self).service_table() == old(self).service_table(),
    {
        let n = self.addresses.len();
        if id < 1 || id > n as i64 {
            return;
        }
        let idx: usize = (id - 1) as usize;
        let o = &self.addresses[idx];
        let row = AddressRecord { id: o.id, chain: o.chain, hash: o.hash.clone(), title, services, tags };
        let ghost before = self.addresses@;
        proof {
            assert(row.hash@ == before[idx as int].hash@);
        }
        self.addresses.set(idx, row);
        proof {
            assert(address_keys(self.addresses@) =~= address_keys(before));
        }
    }

    /// Sets the title of the tag `id`.
    pub fn set_tag_title(&mut self, id: i32, title: String)
        ensures
            final(self).tag_table() == seq![(id, title)] + old(self).tag_table(),
            final(self).address_rows() == old(self).address_rows(),
            final(self).transaction_rows() == old(self).transaction_rows(),
            final(self).service_table() == old(self).service_table(),
    {
        self.tag_titles.insert(0, (id, title));
        assert(self.tag_titles@ =~= seq![(id, title)] + old(self).tag_titles@);
    }

    /// Sets the title of the service `id`.
    pub fn set_service_title(&mut self, id: i32, title: String)
        ensures
            final(self).service_table() == seq![(id, title)] + old(self).service_table(),
            final(self).address_rows() == old(self).address_rows(),
            final(self).transaction_rows() == old(self).transaction_rows(),
            final(self).tag_table() == old(self).tag_table(),
    {
        self.service_titles.insert(0, (id, title));
        assert(self.service_titles@ =~= seq![(id, title)] + old(self).service_titles@);
    }


    /// The addresses that interact with the selected ones: for `From`, the
    /// senders of the transactions that a selected address receives; for `To`,
    /// the receivers of those that one sends. An address is selected when it
    /// lies on one of `chains` and carries one of `services` and one of `tags`
    /// (an absent or empty list asks for nothing). Transactions count on those
    /// chains only, and where `from` or `to` lists ids, only those with one of
    /// them among their senders or receivers. Ids ascend, each once.
    pub fn address_interacting(
        &self,
        chains: &Vec<i32>,
        from: &Option<Vec<i64>>,
        to: &Option<Vec<i64>>,
        services: &Option<Vec<i32>>,
        tags: &Option<Vec<i32>>,
        direction: DirectionOfInteraction,
    ) -> (r: Vec<i64>)
        requires
            self.wf(),
        ensures
            ascending(r@),
            forall|x: i64| r@.contains(x) <==> exists|i: int| 0 <= i < self.transaction_rows().len()
                && interacting_transaction(
                    #[trigger] self.transaction_rows()[i],
                    self.address_rows(),
                    chains@,
                    opt_view(*from),
                    opt_view(*to),
                    opt_view(*services),
                    opt_view(*tags),
                    direction,
                ) && read_side(self.transaction_rows()[i], direction).contains(x),
    {
        let ghost txs = self.transactions@;
        let ghost rows = self.addresses@;
        let mut r: Vec<i64> = Vec::new();
        let mut i: usize = 0;
        while i < self.transactions.len()
            invariant
                i <= txs.len(),
                txs == self.transactions@,
                rows == self.addresses@,
                self.wf(),
                ascending(r@),
                forall|x: i64| r@.contains(x) <==> exists|q: int| 0 <= q < i
                    && interacting_transaction(
                        #[trigger] txs[q],
                        rows,
                        chains@,
                        opt_view(*from),
                        opt_view(*to),
                        opt_view(*services),
                        opt_view(*tags),
                        direction,
                    ) && read_side(txs[q], direction).contains(x),
            decreases txs.len() - i,
        {
            let t = &self.transactions[i];
            let (read, anchor) = match direction {
                DirectionOfInteraction::From => (&t.from, &t.to),
                DirectionOfInteraction::To => (&t.to, &t.from),
            };
            let on_chain = has_label(chains, t.chain);
            let mut anchored = false;
            let mut k: usize = 0;
            while k < anchor.len() && !anchored
                invariant
                    k <= anchor@.len(),
                    self.wf(),
                    i < txs.len(),
                    txs == self.transactions@,
                    rows == self.addresses@,
                    anchor@ == anchor_side(txs[i as int], direction),
                    forall|q: int, m: int| 0 <= q < txs.len() && 0 <= m < txs[q].to@.len() ==> 1 <= #[trigger] txs[q].to@[m] <= rows.len(),
                    forall|q: int, m: int| 0 <= q < txs.len() && 0 <= m < txs[q].from@.len() ==> 1 <= #[trigger] txs[q].from@[m] <= rows.len(),
                    anchored ==> exists|m: int| 0 <= m < anchor@.len() && 1 <= #[trigger] anchor@[m] <= rows.len()
                        && selected_address(rows[anchor@[m] - 1], chains@, opt_view(*services), opt_view(*tags)),
                    !anchored ==> forall|m: int| 0 <= m < k ==> !selected_address(rows[(#[trigger] anchor@[m]) - 1], chains@, opt_view(*services), opt_view(*tags)),
                decreases anchor@.len() - k,
            {
                let x = anchor[k];
                proof {
                    assert(1 <= x <= rows.len());
                }
                let row = self.row_at(x);
                let selected = has_label(chains, row.chain) && label_filter(services, &row.services)
                    && label_filter(tags, &row.tags);
                proof {
                    assert(selected == selected_address(rows[x - 1], chains@, opt_view(*services), opt_view(*tags)));
                }
                if selected {
                    anchored = true;
                }
                k = k + 1;
            }
            let passes_from = id_filter(from, &t.from);
            let passes_to = id_filter(to, &t.to);
            let hit = on_chain && anchored && passes_from && passes_to;
            proof {
                assert(read@ == read_side(txs[i as int], direction));
                assert(hit == interacting_transaction(
                    txs[i as int],
                    rows,
                    chains@,
                    opt_view(*from),
                    opt_view(*to),
                    opt_view(*services),
                    opt_view(*tags),
                    direction,
                ));
            }
            let ghost before = r@;
            if hit {
                let mut k: usize = 0;
                while k < read.len()
                    invariant
                        k <= read@.len(),
                        ascending(r@),
                        forall|x: i64| #[trigger] r@.contains(x) <==> before.contains(x) || read@.subrange(0, k as int).contains(x),
                    decreases read@.len() - k,
                {
                    let ghost mid = r@;
                    let y = read[k];
                    insert_ascending(&mut r, y);
                    proof {
                        assert forall|x: i64| #[trigger] r@.contains(x) <==> before.contains(x) || read@.subrange(0, k + 1).contains(x) by {
                            assert(r@.contains(x) <==> (mid.contains(x) || x == y));
                            assert(mid.contains(x) <==> before.contains(x) || read@.subrange(0, k as int).contains(x));
                            assert(y == read@[k as int]);
                            if read@.subrange(0, k + 1).contains(x) {
                                let m = choose|m: int| 0 <= m < k + 1 && #[trigger] read@.subrange(0, k + 1)[m] == x;
                                if m < k {
                                    assert(read@.subrange(0, k as int)[m] == x);
                                }
                            }
                            if read@.subrange(0, k as int).contains(x) {
                                let m = choose|m: int| 0 <= m < k && #[trigger] read@.subrange(0, k as int)[m] == x;
                                assert(read@.subrange(0, k + 1)[m] == x);
                            }
                            if x == read@[k as int] {
                                assert(read@.subrange(0, k + 1)[k as int] == x);
                            }
                        }
                    }
                    k = k + 1;
                }
                proof {
                    assert(read@.subrange(0, read@.len() as int) =~= read@);
                }
            }
            proof {
                assert forall|x: i64| #[trigger] r@.contains(x) <==> before.contains(x) || (hit && read@.contains(x)) by {
                    if hit {
                        assert(r@.contains(x) <==> before.contains(x) || read@.subrange(0, read@.len() as int).contains(x));
                    }
                }
                assert forall|x: i64| r@.contains(x) <==> exists|q: int| 0 <= q < i + 1
                    && interacting_transaction(
                        #[trigger] txs[q],
                        rows,
                        chains@,
                        opt_view(*from),
                        opt_view(*to),
                        opt_view(*services),
                        opt_view(*tags),
                        direction,
                    ) && read_side(txs[q], direction).contains(x) by {
                    if exists|q: int| 0 <= q < i + 1 && interacting_transaction(
                        #[trigger] txs[q],
                        rows,
                        chains@,
                        opt_view(*from),
                        opt_view(*to),
                        opt_view(*services),
                        opt_view(*tags),
                        direction,
                    ) && read_side(txs[q], direction).contains(x) {
                        let q = choose|q: int| 0 <= q < i + 1 && interacting_transaction(
                            #[trigger] txs[q],
                            rows,
                            chains@,
                            opt_view(*from),
                            opt_view(*to),
                            opt_view(*services),
                            opt_view(*tags),
                            direction,
                        ) && read_side(txs[q], direction).contains(x);
                        if q == i {
                            assert(hit);
                            assert(read@.contains(x));
                            assert(r@.contains(x));
                        } else {
                            assert(before.contains(x));
                        }
                    }
                    if r@.contains(x) {
                        if before.contains(x) {
                            let q = choose|q: int| 0 <= q < i && interacting_transaction(
                                #[trigger] txs[q],
                                rows,
                                chains@,
                                opt_view(*from),
                                opt_view(*to),
                                opt_view(*services),
                                opt_view(*tags),
                                direction,
                            ) && read_side(txs[q], direction).contains(x);
                        } else {
                            assert(hit && read@.contains(x));
                        }
                    }
                }
            }
            i = i + 1;
        }
        r
    }

}

} // verus!
