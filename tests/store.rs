use address_relations::describe::{address_ref, address_ref_human};
use address_relations::model::PrivAddress;
use address_relations::describe::relation_from_links;
use address_relations::relation::Links;
use address_relations::store::plan_transactions;
use address_relations::frequency::top_frequencies;
use address_relations::ingest::{resolve_side, TxInput};
use address_relations::model::DirectionOfInteraction;
use address_relations::store::Store;

fn tx(hash: &[u8], from: &[&[u8]], to: &[&[u8]]) -> TxInput {
    TxInput {
        hash: hash.to_vec(),
        amount: None,
        from: from.iter().map(|h| h.to_vec()).collect(),
        to: to.iter().map(|h| h.to_vec()).collect(),
    }
}

const DEAD: &[u8] = &[0xde, 0xad];
const BEEF: &[u8] = &[0xbe, 0xef];

#[test]
fn ensure_addresses_twice_keeps_one_row() {
    let mut store = Store::new();
    store.ensure_addresses(1, &vec![DEAD.to_vec()]);
    store.ensure_addresses(1, &vec![DEAD.to_vec()]);
    assert_eq!(store.address_count(), 1);
    assert_eq!(store.find_address(1, &DEAD.to_vec()), Some(1));
    store.ensure_addresses(2, &vec![DEAD.to_vec(), DEAD.to_vec()]);
    assert_eq!(store.address_count(), 2);
    assert_eq!(store.find_address(2, &DEAD.to_vec()), Some(2));
}

#[test]
fn resolve_ids_reports_only_known_hashes() {
    let mut store = Store::new();
    store.ensure_addresses(1, &vec![DEAD.to_vec()]);
    let ids = store.resolve_ids(1, &vec![DEAD.to_vec(), BEEF.to_vec()]);
    assert_eq!(ids.len(), 1);
    assert_eq!(ids[0].0, DEAD.to_vec());
    assert_eq!(ids[0].1, 1);
    assert!(store.resolve_ids(2, &vec![DEAD.to_vec()]).is_empty());
}

#[test]
fn unresolvable_counterparty_is_dropped() {
    let ids = vec![(DEAD.to_vec(), 7i64), (BEEF.to_vec(), 3i64)];
    let side = resolve_side(&vec![DEAD.to_vec(), vec![0x01], BEEF.to_vec(), DEAD.to_vec()], &ids);
    assert_eq!(side, vec![3, 7]);
}

#[test]
fn ensure_transactions_stores_sorted_id_sets() {
    let mut store = Store::new();
    store.ensure_addresses(1, &vec![BEEF.to_vec()]);
    store.ensure_transactions(1, &vec![tx(&[1], &[DEAD, BEEF, DEAD], &[BEEF])]);
    assert_eq!(store.transaction_count(), 1);
    let row = store.transaction(1, &vec![1]).unwrap();
    assert_eq!(row.from, vec![1, 2]);
    assert_eq!(row.to, vec![1]);
    assert_eq!(row.id, 1);
    assert_eq!(store.address_count(), 2);
}

#[test]
fn ensure_transactions_is_idempotent() {
    let mut store = Store::new();
    let txs = vec![tx(&[1], &[DEAD], &[BEEF]), tx(&[1], &[BEEF], &[DEAD]), tx(&[2], &[BEEF], &[DEAD])];
    store.ensure_transactions(1, &txs);
    assert_eq!(store.transaction_count(), 2);
    assert_eq!(store.address_count(), 2);
    store.ensure_transactions(1, &txs);
    assert_eq!(store.transaction_count(), 2);
    assert_eq!(store.address_count(), 2);
    store.ensure_transactions(1, &vec![]);
    assert_eq!(store.transaction_count(), 2);
    store.ensure_transactions(2, &txs);
    assert_eq!(store.transaction_count(), 4);
}

#[test]
fn relation_of_address_without_transactions_is_empty() {
    let mut store = Store::new();
    store.ensure_addresses(1, &vec![DEAD.to_vec()]);
    let rel = store.relation_human("dead").unwrap();
    assert_eq!(rel.id, 1);
    assert_eq!(rel.hex, "dead");
    assert_eq!(rel.human, "dead");
    assert!(rel.inputs.is_empty());
    assert!(rel.outputs.is_empty());
    assert!(rel.mixed_in.is_empty());
    assert!(rel.mixed_out.is_empty());
    assert!(rel.tags.is_empty());
    assert!(rel.services.is_empty());
}

#[test]
fn relation_of_unknown_or_malformed_address_is_none() {
    let mut store = Store::new();
    store.ensure_addresses(1, &vec![DEAD.to_vec()]);
    assert!(store.relation_human("beef").is_none());
    assert!(store.relation_human("0xzz").is_none());
    assert!(store.relation_human("0xdead").is_some());
}

#[test]
fn self_referential_transaction_fills_all_lists() {
    let a: &[u8] = &[0x0a];
    let b: &[u8] = &[0x0b];
    let c: &[u8] = &[0x0c];
    let mut store = Store::new();
    store.ensure_transactions(1, &vec![tx(&[9], &[a, b], &[a, c])]);
    let rel = store.relation_human("0a").unwrap();
    let ids = |l: &Vec<address_relations::model::AddressRefHuman>| l.iter().map(|r| (r.id, r.quantity)).collect::<Vec<_>>();
    assert_eq!(ids(&rel.mixed_in), vec![(1, 1), (2, 1)]);
    assert_eq!(ids(&rel.mixed_out), vec![(1, 1), (3, 1)]);
    assert_eq!(ids(&rel.inputs), vec![(1, 1), (2, 1)]);
    assert_eq!(ids(&rel.outputs), vec![(1, 1), (3, 1)]);
}

#[test]
fn input_quantity_counts_qualifying_transactions() {
    let a: &[u8] = &[0x0a];
    let b: &[u8] = &[0x0b];
    let c: &[u8] = &[0x0c];
    let mut store = Store::new();
    store.ensure_transactions(
        1,
        &vec![tx(&[1], &[b], &[a]), tx(&[2], &[b, b], &[a]), tx(&[3], &[b, c], &[a]), tx(&[4], &[c], &[b])],
    );
    let rel = store.relation_human("0a").unwrap();
    assert_eq!(rel.id, 2);
    assert_eq!(rel.inputs.len(), 2);
    assert_eq!(rel.inputs[0].id, 1);
    assert_eq!(rel.inputs[0].quantity, 3);
    assert_eq!(rel.inputs[0].hex, "0b");
    assert_eq!(rel.inputs[1].id, 3);
    assert_eq!(rel.inputs[1].quantity, 1);
    assert!(rel.outputs.is_empty());
    assert_eq!(rel.mixed_out.len(), 1);
    assert_eq!(rel.mixed_out[0].quantity, 3);
}

#[test]
fn end_to_end_round_trip() {
    let mut store = Store::new();
    store.ensure_transactions(1, &vec![tx(&[1], &[DEAD], &[BEEF])]);
    let rel = store.relation_human("dead").unwrap();
    assert!(rel.mixed_out.is_empty());
    assert!(rel.inputs.is_empty());
    assert_eq!(rel.outputs.len(), 1);
    assert_eq!(rel.outputs[0].hex, "beef");
    assert_eq!(rel.mixed_in.len(), 1);
    assert_eq!(rel.mixed_in[0].hex, "dead");
    store.ensure_transactions(1, &vec![tx(&[2], &[BEEF], &[DEAD])]);
    let rel = store.relation_human("dead").unwrap();
    assert_eq!(rel.inputs.len(), 1);
    assert_eq!(rel.inputs[0].hex, "beef");
    assert_eq!(rel.inputs[0].quantity, 1);
    assert_eq!(rel.outputs.len(), 1);
    assert_eq!(rel.mixed_out.len(), 1);
    assert_eq!(rel.mixed_out[0].hex, "dead");
}

#[test]
fn relation_shows_titles_tags_and_frequencies() {
    let a: &[u8] = &[0x0a];
    let b: &[u8] = &[0x0b];
    let c: &[u8] = &[0x0c];
    let mut store = Store::new();
    store.ensure_transactions(1, &vec![tx(&[1], &[b], &[a]), tx(&[2], &[b], &[a]), tx(&[3], &[a], &[c])]);
    store.set_address_details(1, Some("exchange".to_string()), vec![5, 6], vec![9]);
    store.set_address_details(3, None, vec![6], vec![]);
    store.set_tag_title(6, "dex".to_string());
    store.set_service_title(9, "swap".to_string());
    let rel = store.relation_human("0a").unwrap();
    assert_eq!(rel.inputs[0].human, "exchange");
    assert_eq!(rel.inputs[0].tags, vec!["5".to_string(), "dex".to_string()]);
    assert_eq!(rel.inputs[0].services, vec!["swap".to_string()]);
    assert_eq!(rel.outputs[0].human, "0c");
    assert_eq!(rel.tags.len(), 1);
    assert_eq!(rel.tags[0].id, 6);
    assert_eq!(rel.tags[0].title, "dex");
    assert_eq!(rel.tags[0].quantity, 3);
    assert_eq!(rel.services.len(), 1);
    assert_eq!(rel.services[0].quantity, 2);
}

#[test]
fn top_ten_tags_with_titles() {
    let mut entries = Vec::new();
    let mut titles = Vec::new();
    for t in 0..15i32 {
        entries.push((vec![t], (t as u64 + 1) * 10));
        if t != 13 {
            titles.push((t, format!("tag{}", t)));
        }
    }
    entries.push((vec![2, 2, 3], 1));
    let table = top_frequencies(&entries, &titles, 10);
    let ids: Vec<i32> = table.iter().map(|f| f.id).collect();
    assert_eq!(ids, vec![14, 12, 11, 10, 9, 8, 7, 6, 5, 4]);
    assert_eq!(table[0].quantity, 150);
    assert_eq!(table[0].title, "tag14");
    assert!(table.windows(2).all(|w| w[0].quantity > w[1].quantity));
    let small = top_frequencies(&entries, &titles, 20);
    assert_eq!(small.len(), 14);
    assert_eq!(small[13].id, 0);
    let three = small.iter().find(|f| f.id == 3).unwrap();
    assert_eq!(three.quantity, 41);
    let two = small.iter().find(|f| f.id == 2).unwrap();
    assert_eq!(two.quantity, 31);
}

#[test]
fn frequencies_saturate_and_tie_by_id() {
    let entries = vec![(vec![1, 2], u64::MAX), (vec![1], 5), (vec![3], 7), (vec![4], 7)];
    let titles = vec![(1, "a".to_string()), (2, "b".to_string()), (3, "c".to_string()), (4, "d".to_string())];
    let table = top_frequencies(&entries, &titles, 10);
    let got: Vec<(i32, u64)> = table.iter().map(|f| (f.id, f.quantity)).collect();
    assert_eq!(got, vec![(1, u64::MAX), (2, u64::MAX), (3, 7), (4, 7)]);
}

#[test]
fn relation_by_ids_lists_tag_ids() {
    let a: &[u8] = &[0x0a];
    let b: &[u8] = &[0x0b];
    let mut store = Store::new();
    store.ensure_transactions(1, &vec![tx(&[1], &[b], &[a]), tx(&[2], &[b], &[a])]);
    store.set_address_details(1, None, vec![4, 6], vec![2]);
    store.set_tag_title(6, "dex".to_string());
    store.set_tag_title(4, "pool".to_string());
    let rel = store.relation("0x0a").unwrap();
    assert_eq!(rel.id, 2);
    assert_eq!(rel.inputs.len(), 1);
    assert_eq!(rel.inputs[0].id, 1);
    assert_eq!(rel.inputs[0].quantity, 2);
    assert_eq!(rel.inputs[0].tags, vec![4, 6]);
    assert_eq!(rel.inputs[0].services, vec![2]);
    assert_eq!(rel.tags, vec![4, 6]);
    assert!(rel.services.is_empty());
    assert!(store.relation("0c").is_none());
}

#[test]
fn interacting_addresses_follow_direction_and_filters() {
    let a: &[u8] = &[0x0a];
    let b: &[u8] = &[0x0b];
    let c: &[u8] = &[0x0c];
    let mut store = Store::new();
    store.ensure_transactions(1, &vec![tx(&[1], &[b], &[a]), tx(&[2], &[a], &[c])]);
    store.ensure_transactions(2, &vec![tx(&[3], &[c], &[a])]);
    store.set_address_details(2, None, vec![7], vec![3]);
    let senders = store.address_interacting(&vec![1], &None, &None, &Some(vec![3]), &None, DirectionOfInteraction::From);
    assert_eq!(senders, vec![1]);
    let receivers = store.address_interacting(&vec![1], &None, &None, &None, &Some(vec![7]), DirectionOfInteraction::To);
    assert_eq!(receivers, vec![3]);
    let filtered = store.address_interacting(&vec![1], &Some(vec![3]), &None, &None, &None, DirectionOfInteraction::From);
    assert!(filtered.is_empty());
    let none = store.address_interacting(&vec![1], &None, &None, &Some(vec![99]), &None, DirectionOfInteraction::From);
    assert!(none.is_empty());
    let everything = store.address_interacting(&vec![1, 2], &None, &None, &Some(vec![]), &None, DirectionOfInteraction::To);
    assert_eq!(everything, vec![2, 3, 5]);
}

#[test]
fn counterparty_lists_come_ranked() {
    let p = |title: &str, hash: u8| PrivAddress { title: title.to_string(), chain: 1, hash: vec![hash], tags: vec![3], services: vec![] };
    let dir = vec![(1i64, p("one", 0x01)), (2i64, p("two", 0x02)), (3i64, p("three", 0x03))];
    let counted = vec![(1i64, 1u64), (2i64, 5u64), (3i64, 5u64)];
    let human = address_ref_human(&dir, &vec![(3, "dex".to_string())], &vec![], &counted);
    let got: Vec<(i64, u64)> = human.iter().map(|r| (r.id, r.quantity)).collect();
    assert_eq!(got, vec![(2, 5), (3, 5), (1, 1)]);
    assert_eq!(human[0].human, "two");
    assert_eq!(human[0].hex, "02");
    assert_eq!(human[0].tags, vec!["dex".to_string()]);
    let ids = address_ref(&dir, &counted);
    let got: Vec<(i64, u64)> = ids.iter().map(|r| (r.id, r.quantity)).collect();
    assert_eq!(got, vec![(2, 5), (3, 5), (1, 1)]);
    assert_eq!(ids[2].tags, vec![3]);
}

#[test]
fn relation_assembles_from_fetched_rows() {
    let p = |title: &str, hash: u8, tags: Vec<i32>| PrivAddress { title: title.to_string(), chain: 1, hash: vec![hash], tags, services: vec![] };
    let dir = vec![(1i64, p("a", 0x0a, vec![])), (2i64, p("b", 0x0b, vec![7])), (3i64, p("c", 0x0c, vec![7, 8]))];
    let rows = vec![
        Links { from: vec![2], to: vec![1] },
        Links { from: vec![3], to: vec![1] },
        Links { from: vec![2], to: vec![1] },
        Links { from: vec![1], to: vec![3] },
    ];
    let titles = vec![(7, "exchange".to_string()), (8, "pool".to_string())];
    let rel = relation_from_links(1, &rows, &dir, &titles, &vec![]);
    assert_eq!(rel.hex, "0a");
    assert_eq!(rel.human, "a");
    let inputs: Vec<(i64, u64)> = rel.inputs.iter().map(|r| (r.id, r.quantity)).collect();
    assert_eq!(inputs, vec![(2, 2), (3, 1)]);
    let outputs: Vec<(i64, u64)> = rel.outputs.iter().map(|r| (r.id, r.quantity)).collect();
    assert_eq!(outputs, vec![(3, 1)]);
    assert_eq!(rel.mixed_out.len(), 1);
    assert_eq!(rel.mixed_out[0].quantity, 3);
    let tags: Vec<(i32, u64)> = rel.tags.iter().map(|f| (f.id, f.quantity)).collect();
    assert_eq!(tags, vec![(7, 4), (8, 2)]);
    assert!(rel.services.is_empty());
}

#[test]
fn transactions_plan_skips_known_and_drops_unknown_hashes() {
    let txs = vec![tx(&[1], &[DEAD, &[0x77]], &[BEEF]), tx(&[2], &[BEEF], &[DEAD]), tx(&[1], &[BEEF], &[BEEF])];
    let known = vec![vec![2u8]];
    let ids = vec![(DEAD.to_vec(), 8i64), (BEEF.to_vec(), 3i64)];
    let rows = plan_transactions(1, &txs, &known, &ids);
    assert_eq!(rows.len(), 1);
    assert_eq!(rows[0].hash, vec![1]);
    assert_eq!(rows[0].from, vec![8]);
    assert_eq!(rows[0].to, vec![3]);
}
