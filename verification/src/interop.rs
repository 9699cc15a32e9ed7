//! Value types exchanged with the engine's collaborators: the
//! marketplace that lists unique tokens and the custody service that
//! tracks on-chain transfers. The matching engine itself never
//! interprets these; they are carried between callers as plain data.

use vstd::prelude::*;

verus! {

/// Descriptive metadata of a unique token offered by the marketplace
/// collaborator.
#[derive(Debug)]
pub struct NFTMetadata {
    pub name: String,
    pub description: String,
    pub image: String,
    pub attributes: Vec<NFTAttribute>,
    pub external_url: Option<String>,
    pub animation_url: Option<String>,
}

/// One display attribute of a unique token.
#[derive(Debug)]
pub struct NFTAttribute {
    pub trait_type: String,
    pub value: String,
    pub display_type: Option<String>,
}

impl Clone for NFTAttribute {
    fn clone(&self) -> (r: Self)
        ensures
            r.trait_type@ == self.trait_type@,
            r.value@ == self.value@,
            r.display_type == self.display_type,
    {
        NFTAttribute {
            trait_type: self.trait_type.clone(),
            value: self.value.clone(),
            display_type: match &self.display_type {
                Some(d) => Some(d.clone()),
                None => None,
            },
        }
    }
}

/// How a marketplace listing sells: at a fixed price, by open auction,
/// or by declining-price auction.
#[derive(Clone, Copy, Debug, PartialEq, Eq, Structural)]
pub enum ListingType {
    FixedPrice,
    Auction,
    DutchAuction,
}

/// The lifecycle state of a marketplace listing.
#[derive(Clone, Copy, Debug, PartialEq, Eq, Structural)]
pub enum ListingStatus {
    Active,
    Sold,
    Cancelled,
    Expired,
}

/// The confirmation state of an on-chain transfer reported by the
/// custody collaborator.
#[derive(Clone, Copy, Debug, PartialEq, Eq, Structural)]
pub enum TransactionStatus {
    Pending,
    Confirmed,
    Failed,
}

} // verus!
