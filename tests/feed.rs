use address_relations::describe::shown_title;
use address_relations::numbers::natural_text;
use address_relations::cardano::{address_to_bytes, plan_block, CardanoBlock, CardanoInput, CardanoTx};
use address_relations::feed::{
    bearer_for, block_cursor, driver_for, next_action, next_start_block, remaining_delay, to_transaction, Bearer,
    CycleAction, DriverKind, FeedCommand, ScanRecord, PAGE_LIMIT,
};
use address_relations::hexcode::{bytes_to_hex, decode_address_hex};
use address_relations::model::{AnyScan, Cardano, ChainParam};
use address_relations::numbers::{i32_text, parse_unsigned};
use address_relations::store::Store;
use address_relations::supervisor::Registry;

fn record(hash: Option<&str>, value: Option<&str>, from: Option<&str>, to: Option<&str>, block: Option<&str>) -> ScanRecord {
    ScanRecord {
        hash: hash.map(|s| s.to_string()),
        value: value.map(|s| s.to_string()),
        from: from.map(|s| s.to_string()),
        to: to.map(|s| s.to_string()),
        block_number: block.map(|s| s.to_string()),
    }
}

#[test]
fn hex_addresses_decode_with_or_without_prefix() {
    assert_eq!(decode_address_hex("0xdead"), Some(vec![0xde, 0xad]));
    assert_eq!(decode_address_hex("DEAD"), Some(vec![0xde, 0xad]));
    assert_eq!(decode_address_hex("0xdea"), None);
    assert_eq!(decode_address_hex("0xzz"), None);
    assert_eq!(decode_address_hex(""), Some(vec![]));
    assert_eq!(bytes_to_hex(&vec![0x00, 0xab, 0x10]), "00ab10");
}

#[test]
fn numerals_read_in_both_bases() {
    assert_eq!(parse_unsigned("ff", 16, u128::MAX), Some(255));
    assert_eq!(parse_unsigned("+1A", 16, u128::MAX), Some(26));
    assert_eq!(parse_unsigned("1234", 10, u128::MAX), Some(1234));
    assert_eq!(parse_unsigned("12a", 10, u128::MAX), None);
    assert_eq!(parse_unsigned("", 10, u128::MAX), None);
    assert_eq!(parse_unsigned("+", 10, u128::MAX), None);
    assert_eq!(parse_unsigned("-1", 10, u128::MAX), None);
    assert_eq!(parse_unsigned("256", 10, 255), None);
    assert_eq!(parse_unsigned("255", 10, 255), Some(255));
    assert_eq!(parse_unsigned("ffffffffffffffffffffffffffffffff", 16, u128::MAX), Some(u128::MAX));
    assert_eq!(parse_unsigned("100000000000000000000000000000000", 16, u128::MAX), None);
}

#[test]
fn explorer_records_become_transactions() {
    let records = vec![
        record(Some("0xab01"), Some("0x10"), Some("0x01"), Some("0x02ff"), Some("5")),
        record(None, None, None, Some("0xnothex"), None),
        record(Some("0xab02"), Some("0xzz"), Some("0x"), Some("0x03"), None),
    ];
    let txs = to_transaction(&records);
    assert_eq!(txs.len(), 3);
    assert_eq!(txs[0].hash, vec![0xab, 0x01]);
    assert_eq!(txs[0].amount, Some(16));
    assert_eq!(txs[0].from, vec![vec![0x01]]);
    assert_eq!(txs[0].to, vec![vec![0x02, 0xff]]);
    assert_eq!(txs[1].hash, vec![0x00]);
    assert_eq!(txs[1].amount, None);
    assert_eq!(txs[1].from, vec![vec![0x00, 0x00]]);
    assert_eq!(txs[1].to, vec![vec![0x00, 0x00]]);
    assert_eq!(txs[2].amount, Some(0));
    assert_eq!(txs[2].from, vec![Vec::<u8>::new()]);
}

#[test]
fn full_pages_continue_past_the_highest_block() {
    let mut page: Vec<ScanRecord> = (0..PAGE_LIMIT).map(|i| record(None, None, None, None, Some(&format!("{}", 100 + (i % 7))))).collect();
    assert_eq!(next_start_block(100, &page), Some(107));
    assert_eq!(next_start_block(106, &page), Some(107));
    assert_eq!(next_start_block(200, &page), Some(107));
    page[3].block_number = Some("junk".to_string());
    assert_eq!(next_start_block(500, &page), Some(501));
    page.pop();
    assert_eq!(next_start_block(100, &page), None);
    let max_page: Vec<ScanRecord> = (0..PAGE_LIMIT).map(|_| record(None, None, None, None, Some("18446744073709551615"))).collect();
    assert_eq!(next_start_block(0, &max_page), None);
}

#[test]
fn block_cursor_moves_past_the_block() {
    assert_eq!(block_cursor("0x10"), Some(17));
    assert_eq!(block_cursor("0x0"), Some(1));
    assert_eq!(block_cursor("0xg"), None);
    assert_eq!(block_cursor("0xffffffffffffffff"), None);
}

#[test]
fn cycles_wait_for_the_rest_of_the_delay() {
    assert_eq!(remaining_delay(5000, 1200), Some(3800));
    assert_eq!(remaining_delay(5000, 5000), Some(0));
    assert_eq!(remaining_delay(100, 200), None);
}

#[test]
fn commands_take_priority_over_blocks() {
    assert!(matches!(next_action(Some(FeedCommand::Address(7))), CycleAction::ProcessAddress(7)));
    assert!(matches!(next_action(Some(FeedCommand::Stop)), CycleAction::Stop));
    assert!(matches!(next_action(None), CycleAction::ProcessBlock));
}

fn scan(last: u64) -> AnyScan {
    AnyScan { base_url: "https://api.example".to_string(), token: "t".to_string(), last, delay: 5000 }
}

#[test]
fn drivers_follow_the_parameters() {
    assert!(driver_for(&ChainParam::NoFeed).is_none());
    assert!(matches!(driver_for(&ChainParam::PolyScan(scan(0))), Some(DriverKind::ExplorerScan)));
    let cardano = Cardano { address: "relay:3001".to_string(), block_hash: String::new(), slot: 0 };
    assert!(matches!(driver_for(&ChainParam::Cardano(cardano)), Some(DriverKind::CardanoNode)));
}

#[test]
fn cursors_are_written_into_the_parameters() {
    let mut p = ChainParam::EtherScan(scan(3));
    p.set_scan_cursor(42);
    match &p {
        ChainParam::EtherScan(a) => {
            assert_eq!(a.last, 42);
            assert_eq!(a.delay, 5000);
        }
        _ => panic!("variant changed"),
    }
    let mut c = ChainParam::Cardano(Cardano { address: "/tmp/node.socket".to_string(), block_hash: "aa".to_string(), slot: 1 });
    c.set_cardano_cursor("bb".to_string(), 9);
    match &c {
        ChainParam::Cardano(x) => {
            assert_eq!(x.block_hash, "bb");
            assert_eq!(x.slot, 9);
            assert_eq!(x.address, "/tmp/node.socket");
        }
        _ => panic!("variant changed"),
    }
    let mut none = ChainParam::NoFeed;
    none.set_scan_cursor(1);
    assert!(matches!(none, ChainParam::NoFeed));
}

#[test]
fn node_addresses_pick_the_bearer() {
    assert!(matches!(bearer_for("relay.example:3001"), Bearer::Tcp));
    assert!(matches!(bearer_for("/run/node.socket"), Bearer::Unix));
}

#[test]
fn registry_holds_one_channel_per_chain() {
    let mut r: Registry<u32> = Registry::new();
    assert_eq!(r.register(1, 10), None);
    assert_eq!(r.register(2, 20), None);
    assert_eq!(r.register(1, 11), Some(10));
    assert_eq!(r.sender(1), Some(&11));
    assert_eq!(r.unregister(1), Some(11));
    assert_eq!(r.sender(1), None);
    assert_eq!(r.unregister(1), None);
    assert_eq!(r.sender(2), Some(&20));
}

#[test]
fn cardano_addresses_become_bytes() {
    let b = address_to_bytes("addr1vx2fxv2umyhttkxyxp8x0dlpdt3k6cwng5pxj3jhsydzers66hrl8");
    assert_eq!(b.len(), 29);
    assert_eq!(b[0], 0x61);
    assert_eq!(&b[1..5], &[0x94, 0x93, 0x31, 0x5c]);
    assert_eq!(address_to_bytes("0a0B"), vec![0x0a, 0x0b]);
    assert_eq!(address_to_bytes("xyz"), b"xyz".to_vec());
}

fn output(addr: &str) -> String {
    addr.to_string()
}

#[test]
fn cardano_blocks_link_inputs_to_spent_outputs() {
    let mut store = Store::new();
    let first = CardanoBlock {
        hash: "b1".to_string(),
        slot: 1,
        transactions: Some(vec![CardanoTx { hash: "aa".to_string(), inputs: vec![], outputs: vec![output("0a"), output("0b"), output("0a")] }]),
    };
    store.ingest_block(7, &first);
    assert_eq!(store.address_count(), 2);
    let row = store.transaction(7, &vec![0xaa]).unwrap();
    assert_eq!(row.to, vec![1, 2, 1]);
    assert!(row.from.is_empty());
    let second = CardanoBlock {
        hash: "b2".to_string(),
        slot: 2,
        transactions: Some(vec![
            CardanoTx {
                hash: "bb".to_string(),
                inputs: vec![
                    CardanoInput { tx_id: "aa".to_string(), index: 1 },
                    CardanoInput { tx_id: "aa".to_string(), index: 0 },
                    CardanoInput { tx_id: "aa".to_string(), index: 5 },
                    CardanoInput { tx_id: "cc".to_string(), index: 0 },
                ],
                outputs: vec![output("0c")],
            },
            CardanoTx { hash: "aa".to_string(), inputs: vec![], outputs: vec![] },
            CardanoTx { hash: "not hex".to_string(), inputs: vec![], outputs: vec![] },
        ]),
    };
    store.ingest_block(7, &second);
    assert_eq!(store.transaction_count(), 2);
    let row = store.transaction(7, &vec![0xbb]).unwrap();
    assert_eq!(row.from, vec![2, 1]);
    assert_eq!(row.to, vec![3]);
    let empty = CardanoBlock { hash: "b3".to_string(), slot: 3, transactions: None };
    store.ingest_block(7, &empty);
    assert_eq!(store.transaction_count(), 2);
}


#[test]
fn block_plans_use_known_rows_and_spent_outputs() {
    let txs = vec![
        CardanoTx {
            hash: "01".to_string(),
            inputs: vec![
                CardanoInput { tx_id: "aa".to_string(), index: 0 },
                CardanoInput { tx_id: "aa".to_string(), index: 1 },
                CardanoInput { tx_id: "bb".to_string(), index: 0 },
            ],
            outputs: vec![output("0a"), output("0f"), output("0b")],
        },
        CardanoTx { hash: "02".to_string(), inputs: vec![], outputs: vec![output("0a")] },
        CardanoTx { hash: "01".to_string(), inputs: vec![], outputs: vec![] },
        CardanoTx { hash: "zz".to_string(), inputs: vec![], outputs: vec![] },
    ];
    let known = vec![vec![0x02]];
    let spent = vec![(vec![0xaa], 0u64, 9i64), (vec![0xaa], 1u64, 4i64), (vec![0xaa], 0u64, 1i64)];
    let ids = vec![(vec![0x0a], 5i64), (vec![0x0b], 6i64)];
    let rows = plan_block(3, &txs, &known, &spent, &ids);
    assert_eq!(rows.len(), 1);
    assert_eq!(rows[0].hash, vec![0x01]);
    assert_eq!(rows[0].from, vec![9, 4]);
    assert_eq!(rows[0].to, vec![5, 6]);
    assert_eq!(rows[0].amount, None);
}

#[test]
fn integers_print_in_decimal() {
    assert_eq!(i32_text(0), "0");
    assert_eq!(i32_text(7), "7");
    assert_eq!(i32_text(1002), "1002");
    assert_eq!(i32_text(-45), "-45");
    assert_eq!(i32_text(i32::MIN), i32::MIN.to_string());
    assert_eq!(i32_text(i32::MAX), i32::MAX.to_string());
}

#[test]
fn titles_fall_back_to_hex_and_amounts_print_whole() {
    assert_eq!(shown_title(&Some("exchange".to_string()), &vec![0xab]), "exchange");
    assert_eq!(shown_title(&None, &vec![0xab, 0x01]), "ab01");
    assert_eq!(natural_text(u128::MAX), u128::MAX.to_string());
    assert_eq!(natural_text(0), "0");
}
