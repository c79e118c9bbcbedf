//! Records of chains, tags, services and addresses, and the parameters of the
//! chain feeds.

use vstd::prelude::*;

verus! {

/// Parameters of a feed that reads a block explorer of the Etherscan family.
pub struct AnyScan {
    pub base_url: String,
    pub token: String,
    /// The next block to read.
    pub last: u64,
    /// The length of a cycle, in milliseconds.
    pub delay: u64,
}

/// Parameters of a feed that follows a Cardano node.
pub struct Cardano {
    /// `host:port` of a node, or the path of its local socket.
    pub address: String,
    /// The last block read, by hash and slot.
    pub block_hash: String,
    pub slot: u64,
}

/// The feed that a chain has, with its position.
pub enum ChainParam {
    NoFeed,
    EtherScan(AnyScan),
    PolyScan(AnyScan),
    ArbiScan(AnyScan),
    Cardano(Cardano),
}

/// A chain and its feed.
pub struct Chain {
    pub id: Option<i32>,
    pub title: String,
    pub params: ChainParam,
}

/// A tag that addresses can carry.
pub struct Tag {
    pub id: Option<i32>,
    pub title: String,
}

/// A service that addresses can belong to.
pub struct Service {
    pub id: Option<i32>,
    pub title: String,
}

/// An address as the catalogue shows it, its hash in hexadecimal.
pub struct Address {
    pub id: Option<i64>,
    pub hash: String,
    pub title: Option<String>,
    pub chain: i32,
    pub services: Vec<i32>,
    pub tags: Vec<i32>,
}

/// What the relation analysis knows of an address: its display title (the
/// hexadecimal hash where it has none), chain, hash, tags and services.
pub struct PrivAddress {
    pub title: String,
    pub chain: i32,
    pub hash: Vec<u8>,
    pub tags: Vec<i32>,
    pub services: Vec<i32>,
}

/// A counterparty of an address, with tag and service ids.
pub struct AddressRef {
    pub id: i64,
    pub hex: String,
    pub human: String,
    pub quantity: u64,
    pub tags: Vec<i32>,
    pub services: Vec<i32>,
}

/// A counterparty of an address, with tag and service titles.
pub struct AddressRefHuman {
    pub id: i64,
    pub hex: String,
    pub human: String,
    pub quantity: u64,
    pub tags: Vec<String>,
    pub services: Vec<String>,
}

/// The first-degree relations of an address, by ids: its counterparties in four
/// lists, and the ids of the most frequent tags and services among them.
pub struct AddressRelation {
    pub id: i64,
    pub hex: String,
    pub human: String,
    pub inputs: Vec<AddressRef>,
    pub outputs: Vec<AddressRef>,
    pub mixed_in: Vec<AddressRef>,
    pub mixed_out: Vec<AddressRef>,
    pub tags: Vec<i32>,
    pub services: Vec<i32>,
}

/// The first-degree relations of an address, with titles: its counterparties
/// in four lists, and the frequency tables of their tags and services.
pub struct AddressRelationHuman {
    pub id: i64,
    pub hex: String,
    pub human: String,
    pub inputs: Vec<AddressRefHuman>,
    pub outputs: Vec<AddressRefHuman>,
    pub mixed_in: Vec<AddressRefHuman>,
    pub mixed_out: Vec<AddressRefHuman>,
    pub tags: Vec<crate::frequency::Frequency>,
    pub services: Vec<crate::frequency::Frequency>,
}

/// The side of a transaction that a query of interacting addresses reads.
pub enum DirectionOfInteraction {
    To,
    From,
}

} // verus!
