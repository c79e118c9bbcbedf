//! Decisions of the chain feeds: what a cycle does, how long it waits, and how
//! an explorer's records become transactions and cursor positions.

use vstd::prelude::*;
use crate::hexcode::{decode_hex, is_hex_text, hex_bytes_of};
use crate::ingest::TxInput;
use crate::model::{AnyScan, Cardano, ChainParam};
use crate::numbers::{parse_unsigned, read_numeral};

verus! {

/// A command to a running feed.
pub enum FeedCommand {
    /// Read the whole history of the address with this id.
    Address(i64),
    Stop,
}

/// What a feed does in a cycle.
pub enum CycleAction {
    ProcessAddress(i64),
    ProcessBlock,
    Stop,
}

/// A pending command is served for the cycle in place of the regular block,
/// and a stop ends the feed.
pub fn next_action(command: Option<FeedCommand>) -> (r: CycleAction)
    ensures
        command matches Some(FeedCommand::Address(id)) ==> r == CycleAction::ProcessAddress(id),
        command matches Some(FeedCommand::Stop) ==> r == CycleAction::Stop,
        command is None ==> r == CycleAction::ProcessBlock,
{
    match command {
        Some(FeedCommand::Address(id)) => CycleAction::ProcessAddress(id),
        Some(FeedCommand::Stop) => CycleAction::Stop,
        None => CycleAction::ProcessBlock,
    }
}

/// The sleep that ends a cycle: what is left of `delay` after `elapsed` (both
/// in milliseconds), or `None` where the cycle already took longer, and the
/// next one starts at once.
pub fn remaining_delay(delay: u64, elapsed: u64) -> (r: Option<u64>)
    ensures
        elapsed <= delay ==> r == Some((delay - elapsed) as u64),
        elapsed > delay ==> r is None,
{
    if elapsed <= delay {
        Some(delay - elapsed)
    } else {
        None
    }
}

/// A transaction record of an explorer's answer, its fields as they came.
pub struct ScanRecord {
    pub hash: Option<String>,
    pub value: Option<String>,
    pub from: Option<String>,
    pub to: Option<String>,
    pub block_number: Option<String>,
}

/// The records in one page of an explorer's answer, at most.
pub const PAGE_LIMIT: usize = 10000;

/// `s` without its first two characters (a `0x`), empty where it is shorter.
pub open spec fn after_prefix(s: Seq<char>) -> Seq<char> {
    if s.len() >= 2 {
        s.subrange(2, s.len() as int)
    } else {
        Seq::empty()
    }
}

/// The bytes of a `0x`-prefixed hexadecimal field; `fallback` where it is
/// missing or not hexadecimal.
pub open spec fn field_bytes(field: Option<String>, fallback: Seq<u8>) -> Seq<u8> {
    match field {
        Some(s) => if is_hex_text(after_prefix(s@)) {
            hex_bytes_of(after_prefix(s@))
        } else {
            fallback
        },
        None => fallback,
    }
}

/// The amount of a `0x`-prefixed hexadecimal value field: `None` where it is
/// missing, zero where it is not a number that fits.
pub open spec fn field_amount(field: Option<String>) -> Option<u128> {
    match field {
        Some(s) => match read_numeral(after_prefix(s@), 16, u128::MAX as nat) {
            Some(v) => Some(v as u128),
            None => Some(0),
        },
        None => None,
    }
}

/// The hash that stands for a missing or unreadable transaction hash.
pub open spec fn default_hash() -> Seq<u8> {
    seq![0u8]
}

/// The address that stands for a missing or unreadable sender or receiver.
pub open spec fn default_address() -> Seq<u8> {
    seq![0u8, 0u8]
}

/// Drops the first two characters.
fn strip_two(s: &str) -> (r: &str)
    ensures
        r@ == after_prefix(s@),
{
    let n = s.unicode_len();
    if n >= 2 {
        s.substring_char(2, n)
    } else {
        s.substring_char(0, 0)
    }
}

/// The bytes of a `0x`-prefixed hexadecimal field, or `fallback`.
fn read_bytes(field: &Option<String>, fallback: Vec<u8>) -> (r: Vec<u8>)
    ensures
        r@ == field_bytes(*field, fallback@),
{
    match field {
        Some(s) => match decode_hex(strip_two(s.as_str())) {
            Some(b) => b,
            None => fallback,
        },
        None => fallback,
    }
}

/// `r` is the transaction that the explorer record `t` stands for.
pub open spec fn stands_for(r: TxInput, t: ScanRecord) -> bool {
    &&& r.hash@ == field_bytes(t.hash, default_hash())
    &&& r.amount == field_amount(t.value)
    &&& r.from@.len() == 1
    &&& r.from@[0]@ == field_bytes(t.from, default_address())
    &&& r.to@.len() == 1
    &&& r.to@[0]@ == field_bytes(t.to, default_address())
}

/// The transactions that explorer records stand for, one each, in order: a
/// missing or unreadable hash or address falls back to zero bytes, and a
/// value that is not a hexadecimal number to a zero amount.
pub fn to_transaction(records: &Vec<ScanRecord>) -> (r: Vec<TxInput>)
    ensures
        r@.len() == records@.len(),
        forall|i: int| 0 <= i < r@.len() ==> stands_for(#[trigger] r@[i], records@[i]),
{
    let mut r: Vec<TxInput> = Vec::new();
    let mut i: usize = 0;
    while i < records.len()
        invariant
            i <= records@.len(),
            r@.len() == i,
            forall|k: int| 0 <= k < i ==> stands_for(#[trigger] r@[k], records@[k]),
        decreases records@.len() - i,
    {
        let t = &records[i];
        let zero_hash = vec![0u8];
        let zero_address = vec![0u8, 0u8];
        proof {
            assert(zero_hash@ =~= default_hash());
            assert(zero_address@ =~= default_address());
        }
        let hash = read_bytes(&t.hash, zero_hash);
        let amount = match &t.value {
            Some(v) => match parse_unsigned(strip_two(v.as_str()), 16, u128::MAX) {
                Some(x) => Some(x),
                None => Some(0u128),
            },
            None => None,
        };
        let from = read_bytes(&t.from, zero_address.clone());
        let to = read_bytes(&t.to, zero_address);
        r.push(TxInput { hash, amount, from: vec![from], to: vec![to] });
        i = i + 1;
    }
    r
}

/// The block number of a record, read in decimal; `current` where it is
/// missing or unreadable.
pub open spec fn record_block(t: ScanRecord, current: u64) -> nat {
    match t.block_number {
        Some(s) => match read_numeral(s@, 10, u64::MAX as nat) {
            Some(v) => v,
            None => current as nat,
        },
        None => current as nat,
    }
}

/// The largest block number among `records` (zero where there are none).
pub open spec fn highest_block(records: Seq<ScanRecord>, current: u64) -> nat
    decreases records.len(),
{
    if records.len() == 0 {
        0
    } else {
        let m = highest_block(records.drop_last(), current);
        let b = record_block(records.last(), current);
        if b > m {
            b
        } else {
            m
        }
    }
}

/// Where the next page starts when a page that began at block `current` came
/// back full: one past the highest block seen (a record whose block number does
/// not read counts as `current`). `None` where the page was not full, and
/// paging ends, or where no block lies past the highest.
pub fn next_start_block(current: u64, records: &Vec<ScanRecord>) -> (r: Option<u64>)
    ensures
        records@.len() != PAGE_LIMIT ==> r is None,
        records@.len() == PAGE_LIMIT && highest_block(records@, current) < u64::MAX ==> r == Some(
            (highest_block(records@, current) + 1) as u64,
        ),
        records@.len() == PAGE_LIMIT && highest_block(records@, current) >= u64::MAX ==> r is None,
{
    if records.len() != PAGE_LIMIT {
        return None;
    }
    let mut best: u64 = 0;
    let mut i: usize = 0;
    while i < records.len()
        invariant
            i <= records@.len(),
            best as nat == highest_block(records@.subrange(0, i as int), current),
        decreases records@.len() - i,
    {
        let b: u64 = match &records[i].block_number {
            Some(s) => match parse_unsigned(s.as_str(), 10, u64::MAX as u128) {
                Some(v) => v as u64,
                None => current,
            },
            None => current,
        };
        proof {
            let s = records@.subrange(0, i + 1);
            assert(s.drop_last() =~= records@.subrange(0, i as int));
            assert(s.last() == records@[i as int]);
            assert(b as nat == record_block(records@[i as int], current));
        }
        if b > best {
            best = b;
        }
        i = i + 1;
    }
    proof {
        assert(records@.subrange(0, records@.len() as int) =~= records@);
    }
    if best == u64::MAX {
        None
    } else {
        Some(best + 1)
    }
}

/// The cursor after a block: one past its number, written in hexadecimal
/// behind `0x`. `None` where the number does not read or has no successor.
pub fn block_cursor(number: &str) -> (r: Option<u64>)
    ensures
        r matches Some(v) ==> read_numeral(after_prefix(number@), 16, (u64::MAX - 1) as nat) == Some((v - 1) as nat) && v >= 1,
        r is None ==> read_numeral(after_prefix(number@), 16, (u64::MAX - 1) as nat) is None,
{
    match parse_unsigned(strip_two(number), 16, (u64::MAX - 1) as u128) {
        Some(v) => Some(v as u64 + 1),
        None => None,
    }
}

/// The kind of feed that runs a chain.
pub enum DriverKind {
    ExplorerScan,
    CardanoNode,
}

/// The feed for a chain's parameters: an explorer feed for the explorer
/// variants, a node feed for Cardano, none where the chain has no feed.
pub fn driver_for(params: &ChainParam) -> (r: Option<DriverKind>)
    ensures
        params is NoFeed <==> r is None,
        (params is EtherScan || params is PolyScan || params is ArbiScan) <==> r == Some(DriverKind::ExplorerScan),
        params is Cardano <==> r == Some(DriverKind::CardanoNode),
{
    match params {
        ChainParam::NoFeed => None,
        ChainParam::EtherScan(_) => Some(DriverKind::ExplorerScan),
        ChainParam::PolyScan(_) => Some(DriverKind::ExplorerScan),
        ChainParam::ArbiScan(_) => Some(DriverKind::ExplorerScan),
        ChainParam::Cardano(_) => Some(DriverKind::CardanoNode),
    }
}

impl AnyScan {
    /// Moves the cursor to the block `last`.
    pub fn advance(&mut self, last: u64)
        ensures
            final(self).last == last,
            final(self).base_url == old(self).base_url,
            final(self).token == old(self).token,
            final(self).delay == old(self).delay,
    {
        self.last = last;
    }
}

impl ChainParam {
    /// Records the explorer cursor `last` in an explorer variant; other
    /// variants are left as they are.
    pub fn set_scan_cursor(&mut self, last: u64)
        ensures
            match (*old(self), *final(self)) {
                (ChainParam::EtherScan(a), ChainParam::EtherScan(b)) => b.last == last && b.base_url == a.base_url
                    && b.token == a.token && b.delay == a.delay,
                (ChainParam::PolyScan(a), ChainParam::PolyScan(b)) => b.last == last && b.base_url == a.base_url
                    && b.token == a.token && b.delay == a.delay,
                (ChainParam::ArbiScan(a), ChainParam::ArbiScan(b)) => b.last == last && b.base_url == a.base_url
                    && b.token == a.token && b.delay == a.delay,
                (ChainParam::EtherScan(_), _) | (ChainParam::PolyScan(_), _) | (ChainParam::ArbiScan(_), _) => false,
                _ => *final(self) == *old(self),
            },
    {
        match self {
            ChainParam::EtherScan(a) => a.advance(last),
            ChainParam::PolyScan(a) => a.advance(last),
            ChainParam::ArbiScan(a) => a.advance(last),
            _ => {},
        }
    }

    /// Records the last Cardano block read in the Cardano variant; other
    /// variants are left as they are.
    pub fn set_cardano_cursor(&mut self, block_hash: String, slot: u64)
        ensures
            match (*old(self), *final(self)) {
                (ChainParam::Cardano(a), ChainParam::Cardano(b)) => b.block_hash@ == block_hash@ && b.slot == slot
                    && b.address == a.address,
                (ChainParam::Cardano(_), _) => false,
                _ => *final(self) == *old(self),
            },
    {
        match self {
            ChainParam::Cardano(c) => {
                c.block_hash = block_hash;
                c.slot = slot;
            },
            _ => {},
        }
    }
}

/// How a node is reached.
pub enum Bearer {
    Tcp,
    Unix,
}

/// A node address with a `:` is a TCP `host:port`; any other is the path of a
/// local socket.
pub fn bearer_for(address: &str) -> (r: Bearer)
    ensures
        address@.contains(':') ==> r == Bearer::Tcp,
        !address@.contains(':') ==> r == Bearer::Unix,
{
    let n = address.unicode_len();
    let mut k: usize = 0;
    while k < n
        invariant
            k <= n,
            n == address@.len(),
            forall|m: int| 0 <= m < k ==> address@[m] != ':',
        decreases n - k,
    {
        if address.get_char(k) == ':' {
            return Bearer::Tcp;
        }
        k = k + 1;
    }
    Bearer::Unix
}

} // verus!
