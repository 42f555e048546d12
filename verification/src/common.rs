//! Assets and directional asset pairs, the vocabulary shared by every
//! component of the oracle.

use vstd::prelude::*;
use crate::keyed_map::Key;

verus! {

/// The address of an account, as its string form.
#[derive(Debug)]
pub struct Address {
    pub strkey: String,
}

impl View for Address {
    type V = Seq<char>;

    open spec fn view(&self) -> Seq<char> {
        self.strkey@
    }
}

impl Clone for Address {
    fn clone(&self) -> (r: Address)
        ensures
            r == *self,
    {
        Address { strkey: self.strkey.clone() }
    }
}

impl Address {
    /// Whether two addresses are the same.
    pub fn equals(&self, other: &Address) -> (same: bool)
        ensures
            same == (self@ == other@),
    {
        self.strkey == other.strkey
    }
}

impl PartialEq for Address {
    fn eq(&self, other: &Address) -> (r: bool) {
        self.equals(other)
    }
}

impl vstd::std_specs::cmp::PartialEqSpecImpl for Address {
    open spec fn obeys_eq_spec() -> bool {
        true
    }

    open spec fn eq_spec(&self, other: &Address) -> bool {
        self@ == other@
    }
}

impl Eq for Address {

}

impl Key for Address {
    type Id = Seq<char>;

    open spec fn id(&self) -> Seq<char> {
        self@
    }

    fn same(&self, other: &Address) -> (same: bool) {
        self.equals(other)
    }
}

/// The mathematical identity of an asset: its code and, for an issued asset,
/// the account that issued it.
pub struct AssetId {
    pub code: Seq<char>,
    pub issuer: Option<Seq<char>>,
}

/// The mathematical identity of a directional pair.
pub struct PairId {
    pub base: AssetId,
    pub quote: AssetId,
}

/// An asset: a code and an optional issuer. The native asset has no issuer.
#[derive(Debug)]
pub struct Asset {
    pub code: String,
    pub issuer: Option<Address>,
}

/// A directional pair: the price of one `base` expressed in `quote`.
#[derive(Debug)]
pub struct AssetPair {
    pub base: Asset,
    pub quote: Asset,
}

impl View for Asset {
    type V = AssetId;

    open spec fn view(&self) -> AssetId {
        AssetId {
            code: self.code@,
            issuer: match self.issuer {
                Some(s) => Some(s@),
                None => None,
            },
        }
    }
}

impl View for AssetPair {
    type V = PairId;

    open spec fn view(&self) -> PairId {
        PairId { base: self.base@, quote: self.quote@ }
    }
}

impl Clone for Asset {
    fn clone(&self) -> (r: Asset)
        ensures
            r == *self,
    {
        Asset {
            code: self.code.clone(),
            issuer: match &self.issuer {
                Some(s) => Some(s.clone()),
                None => None,
            },
        }
    }
}

impl Asset {
    /// Whether two assets are the same: their codes and their issuers match.
    pub fn equals(&self, other: &Asset) -> (same: bool)
        ensures
            same == (self@ == other@),
    {
        let same_code = self.code == other.code;
        let same_issuer = match &self.issuer {
            Some(a) => match &other.issuer {
                Some(b) => a.equals(b),
                None => false,
            },
            None => other.issuer.is_none(),
        };
        same_code && same_issuer
    }
}

impl PartialEq for Asset {
    fn eq(&self, other: &Asset) -> (r: bool) {
        self.equals(other)
    }
}

impl vstd::std_specs::cmp::PartialEqSpecImpl for Asset {
    open spec fn obeys_eq_spec() -> bool {
        true
    }

    open spec fn eq_spec(&self, other: &Asset) -> bool {
        self@ == other@
    }
}

impl Eq for Asset {

}

impl Clone for AssetPair {
    fn clone(&self) -> (r: AssetPair)
        ensures
            r == *self,
    {
        AssetPair { base: self.base.clone(), quote: self.quote.clone() }
    }
}

impl AssetPair {
    /// Whether two pairs are the same: same base and same quote.
    pub fn equals(&self, other: &AssetPair) -> (same: bool)
        ensures
            same == (self@ == other@),
    {
        self.base.equals(&other.base) && self.quote.equals(&other.quote)
    }
}

impl PartialEq for AssetPair {
    fn eq(&self, other: &AssetPair) -> (r: bool) {
        self.equals(other)
    }
}

impl vstd::std_specs::cmp::PartialEqSpecImpl for AssetPair {
    open spec fn obeys_eq_spec() -> bool {
        true
    }

    open spec fn eq_spec(&self, other: &AssetPair) -> bool {
        self@ == other@
    }
}

impl Eq for AssetPair {

}

impl Key for AssetPair {
    type Id = PairId;

    open spec fn id(&self) -> PairId {
        self@
    }

    fn same(&self, other: &AssetPair) -> (same: bool) {
        self.equals(other)
    }
}

/// The identities of a sequence of assets.
pub open spec fn asset_ids(assets: Seq<Asset>) -> Seq<AssetId> {
    Seq::new(assets.len(), |i: int| assets[i]@)
}

/// The identities of a sequence of pairs.
pub open spec fn pair_ids(pairs: Seq<AssetPair>) -> Seq<PairId> {
    Seq::new(pairs.len(), |i: int| pairs[i]@)
}

} // verus!
