//! Blocks of a Cardano node, and the bytes of Cardano addresses.

use vstd::prelude::*;
use vstd::utf8::encode_utf8;
use crate::hexcode::{decode_hex, hex_bytes_of, is_hex_text};
use crate::ingest::{id_for, lookup_id, push_new, TransactionDraft};
use crate::store::{fresh_block, keys_on, same_bytes};

verus! {

/// An input of a Cardano transaction: the output `index` of the transaction
/// with hash `tx_id` (hexadecimal).
pub struct CardanoInput {
    pub tx_id: String,
    pub index: u64,
}

/// A Cardano transaction: its hash (hexadecimal), inputs, and the address of
/// each output, in order.
pub struct CardanoTx {
    pub hash: String,
    pub inputs: Vec<CardanoInput>,
    pub outputs: Vec<String>,
}

/// A block of a Cardano node, by hash and slot, with its transactions where
/// the node gave them.
pub struct CardanoBlock {
    pub hash: String,
    pub slot: u64,
    pub transactions: Option<Vec<CardanoTx>>,
}

/// The raw bytes of the address that a bech32 text stands for, where it is a
/// Cardano address.
pub uninterp spec fn bech32_address(s: Seq<char>) -> Option<Seq<u8>>;

/// Relies on `pallas_addresses::Address::from_bech32` and `Address::to_vec`:
/// the raw bytes of a Cardano address written in bech32, `None` where the text
/// is not one.
#[verifier::external_body]
fn decode_bech32_address(s: &str) -> (r: Option<Vec<u8>>)
    ensures
        r matches Some(b) ==> bech32_address(s@) == Some(b@),
        r is None ==> bech32_address(s@) is None,
{
    pallas_addresses::Address::from_bech32(s).ok().map(|a| a.to_vec())
}

/// The bytes an address is stored under: its raw bytes where it is bech32 or
/// hexadecimal, else the bytes of its text.
pub open spec fn address_bytes(s: Seq<char>) -> Seq<u8> {
    match bech32_address(s) {
        Some(b) => b,
        None => if is_hex_text(s) {
            hex_bytes_of(s)
        } else {
            encode_utf8(s)
        },
    }
}

/// The bytes a Cardano address is stored under.
pub fn address_to_bytes(s: &str) -> (r: Vec<u8>)
    ensures
        r@ == address_bytes(s@),
{
    match decode_bech32_address(s) {
        Some(b) => b,
        None => match decode_hex(s) {
            Some(b) => b,
            None => s.as_bytes_vec(),
        },
    }
}

/// The address id that `spent` gives for the output `index` of the
/// transaction `h`: the first entry listed for them.
pub open spec fn spent_id(spent: Seq<(Vec<u8>, u64, i64)>, h: Seq<u8>, index: u64) -> Option<i64>
    decreases spent.len(),
{
    if spent.len() == 0 {
        None
    } else if spent[0].0@ == h && spent[0].1 == index {
        Some(spent[0].2)
    } else {
        spent_id(spent.subrange(1, spent.len() as int), h, index)
    }
}

/// The address id of the output that an input spends, where `spent` has it.
pub open spec fn input_source(spent: Seq<(Vec<u8>, u64, i64)>, input: CardanoInput) -> Option<i64> {
    if is_hex_text(input.tx_id@) {
        spent_id(spent, hex_bytes_of(input.tx_id@), input.index)
    } else {
        None
    }
}

/// The address ids of the outputs that `inputs` spend, where `spent` has
/// them, in input order, each once.
pub open spec fn input_senders(inputs: Seq<CardanoInput>, spent: Seq<(Vec<u8>, u64, i64)>) -> Seq<i64>
    decreases inputs.len(),
{
    if inputs.len() == 0 {
        Seq::empty()
    } else {
        let prev = input_senders(inputs.drop_last(), spent);
        match input_source(spent, inputs.last()) {
            Some(x) => if prev.contains(x) {
                prev
            } else {
                prev.push(x)
            },
            None => prev,
        }
    }
}

/// The ids of the outputs' addresses that `ids` knows, in output order.
pub open spec fn output_ids(outputs: Seq<String>, ids: Seq<(Vec<u8>, i64)>) -> Seq<i64>
    decreases outputs.len(),
{
    if outputs.len() == 0 {
        Seq::empty()
    } else {
        let prev = output_ids(outputs.drop_last(), ids);
        match id_for(ids, address_bytes(outputs.last()@)) {
            Some(x) => prev.push(x),
            None => prev,
        }
    }
}

/// `d` is the row of the block transaction `t`: its receivers are the ids of
/// its outputs' addresses that `ids` knows, in output order, and its senders
/// the ids that `spent` gives for its inputs, in input order, each once.
pub open spec fn drafts_block_tx(
    d: TransactionDraft,
    t: CardanoTx,
    spent: Seq<(Vec<u8>, u64, i64)>,
    ids: Seq<(Vec<u8>, i64)>,
) -> bool {
    &&& d.hash@ == hex_bytes_of(t.hash@)
    &&& d.amount is None
    &&& d.to@ == output_ids(t.outputs@, ids)
    &&& d.from@ == input_senders(t.inputs@, spent)
}

/// Where the output `index` of the transaction `h` is listed in `spent`.
fn find_spent(spent: &Vec<(Vec<u8>, u64, i64)>, h: &Vec<u8>, index: u64) -> (r: Option<i64>)
    ensures
        r == spent_id(spent@, h@, index),
{
    let mut k: usize = 0;
    assert(spent@.subrange(0, spent@.len() as int) =~= spent@);
    while k < spent.len()
        invariant
            k <= spent@.len(),
            spent_id(spent@.subrange(k as int, spent@.len() as int), h@, index) == spent_id(spent@, h@, index),
        decreases spent@.len() - k,
    {
        let ghost rest = spent@.subrange(k as int, spent@.len() as int);
        proof {
            assert(rest[0] == spent@[k as int]);
            assert(rest.subrange(1, rest.len() as int) =~= spent@.subrange(k + 1, spent@.len() as int));
        }
        if spent[k].1 == index && same_bytes(&spent[k].0, h) {
            return Some(spent[k].2);
        }
        k = k + 1;
    }
    None
}

/// The rows to store for a block's transactions on `chain`, given the hashes
/// of those already `known` there, the address ids of the outputs that the
/// inputs spend (`spent`: transaction hash, output index, address id) and the
/// ids of the output addresses (`ids`). Transactions already known, repeated,
/// or with a hash that is not hexadecimal are left out; the rest come in
/// block order.
pub fn plan_block(
    chain: i32,
    txs: &Vec<CardanoTx>,
    known: &Vec<Vec<u8>>,
    spent: &Vec<(Vec<u8>, u64, i64)>,
    ids: &Vec<(Vec<u8>, i64)>,
) -> (r: Vec<TransactionDraft>)
    ensures
        r@.len() == fresh_block(keys_on(chain, known@), chain, txs@).len(),
        forall|k: int| 0 <= k < r@.len() ==> drafts_block_tx(
            #[trigger] r@[k],
            fresh_block(keys_on(chain, known@), chain, txs@)[k],
            spent@,
            ids@,
        ),
{
    let ghost stored = keys_on(chain, known@);
    let mut r: Vec<TransactionDraft> = Vec::new();
    let mut i: usize = 0;
    while i < txs.len()
        invariant
            i <= txs@.len(),
            stored == keys_on(chain, known@),
            r@.len() == fresh_block(stored, chain, txs@.subrange(0, i as int)).len(),
            forall|k: int| 0 <= k < r@.len() ==> drafts_block_tx(
                #[trigger] r@[k],
                fresh_block(stored, chain, txs@.subrange(0, i as int))[k],
                spent@,
                ids@,
            ),
        decreases txs@.len() - i,
    {
        let t = &txs[i];
        let ghost prev = fresh_block(stored, chain, txs@.subrange(0, i as int));
        proof {
            let s = txs@.subrange(0, i + 1);
            assert(s.drop_last() =~= txs@.subrange(0, i as int));
            assert(s.last() == *t);
        }
        let h = match decode_hex(t.hash.as_str()) {
            Some(h) => h,
            None => {
                i = i + 1;
                continue;
            },
        };
        let mut seen = false;
        let mut m: usize = 0;
        while m < known.len()
            invariant
                m <= known@.len(),
                seen == exists|q: int| 0 <= q < m && keys_on(chain, known@)[q] == (chain, h@),
            decreases known@.len() - m,
        {
            if same_bytes(&known[m], &h) {
                seen = true;
            }
            proof {
                assert(keys_on(chain, known@)[m as int] == (chain, known@[m as int]@));
            }
            m = m + 1;
        }
        let ghost pv = prev.map_values(|p: CardanoTx| hex_bytes_of(p.hash@));
        let mut m: usize = 0;
        while m < r.len()
            invariant
                pv == prev.map_values(|p: CardanoTx| hex_bytes_of(p.hash@)),
                m <= r@.len(),
                r@.len() == prev.len(),
                forall|k: int| 0 <= k < r@.len() ==> drafts_block_tx(#[trigger] r@[k], prev[k], spent@, ids@),
                seen == ((exists|q: int| 0 <= q < known@.len() && keys_on(chain, known@)[q] == (chain, h@))
                    || exists|q: int| 0 <= q < m && #[trigger] pv[q] == h@),
            decreases r@.len() - m,
        {
            if same_bytes(&r[m].hash, &h) {
                seen = true;
            }
            proof {
                assert(drafts_block_tx(r@[m as int], prev[m as int], spent@, ids@));
                assert(pv[m as int] == hex_bytes_of(prev[m as int].hash@));
            }
            m = m + 1;
        }
        proof {
            if stored.contains((chain, h@)) {
                let q = choose|q: int| 0 <= q < stored.len() && stored[q] == (chain, h@);
            }
            if pv.contains(h@) {
                let q = choose|q: int| 0 <= q < pv.len() && pv[q] == h@;
            }
        }
        if seen {
            i = i + 1;
            continue;
        }
        let mut from: Vec<i64> = Vec::new();
        let mut j: usize = 0;
        while j < t.inputs.len()
            invariant
                j <= t.inputs@.len(),
                from@ == input_senders(t.inputs@.subrange(0, j as int), spent@),
            decreases t.inputs@.len() - j,
        {
            let input = &t.inputs[j];
            let ghost before = from@;
            let found = match decode_hex(input.tx_id.as_str()) {
                Some(src) => find_spent(spent, &src, input.index),
                None => None,
            };
            proof {
                assert(found == input_source(spent@, t.inputs@[j as int]));
            }
            match found {
                Some(x) => push_new(&mut from, x),
                None => {},
            }
            proof {
                let s = t.inputs@.subrange(0, j + 1);
                assert(s.drop_last() =~= t.inputs@.subrange(0, j as int));
                assert(s.last() == t.inputs@[j as int]);
            }
            j = j + 1;
        }
        let mut to: Vec<i64> = Vec::new();
        let mut j: usize = 0;
        while j < t.outputs.len()
            invariant
                j <= t.outputs@.len(),
                to@ == output_ids(t.outputs@.subrange(0, j as int), ids@),
            decreases t.outputs@.len() - j,
        {
            let b = address_to_bytes(t.outputs[j].as_str());
            proof {
                let s = t.outputs@.subrange(0, j + 1);
                assert(s.drop_last() =~= t.outputs@.subrange(0, j as int));
                assert(s.last() == t.outputs@[j as int]);
            }
            match lookup_id(ids, &b) {
                Some(x) => to.push(x),
                None => {},
            }
            j = j + 1;
        }
        proof {
            assert(t.outputs@.subrange(0, t.outputs@.len() as int) =~= t.outputs@);
            assert(t.inputs@.subrange(0, t.inputs@.len() as int) =~= t.inputs@);
        }
        r.push(TransactionDraft { hash: h, amount: None, from, to });
        proof {
            assert(fresh_block(stored, chain, txs@.subrange(0, i + 1)) == prev.push(*t));
            assert forall|k: int| 0 <= k < r@.len() implies drafts_block_tx(
                #[trigger] r@[k],
                prev.push(*t)[k],
                spent@,
                ids@,
            ) by {
                if k < prev.len() {
                    assert(r@[k] == r@.drop_last()[k]);
                }
            }
        }
        i = i + 1;
    }
    proof {
        assert(txs@.subrange(0, txs@.len() as int) =~= txs@);
    }
    r
}

} // verus!
