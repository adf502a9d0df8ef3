use vstd::prelude::*;

use crate::money::Money;
use crate::numbers::{canonical_url, spec_canonical_url};

verus! {

/// A per-base-unit price: either a parsed value, or unknown because the raw
/// text could not be normalized. An unknown price ranks after every known one.
#[derive(Clone, Copy, Debug, PartialEq, Eq, Structural)]
pub enum Price {
    Known(Money),
    Unknown,
}

/// One marketplace listing. A record is either fully populated or a bare
/// placeholder: extraction never produces a partially filled record.
#[derive(Clone, Copy, Debug, PartialEq, Eq, Structural)]
pub enum Item {
    Complete {
        /// Identifier read from the detail page itself; the canonical
        /// detail-page address is reconstructed from it.
        url_id: u64,
        /// Price of one package; mandatory, a record without it is not built.
        price_per_package: Money,
        /// Price per normalized physical unit; unknown when unparsable.
        price_per_base_unit: Price,
        /// Reserved field, not populated by extraction.
        quantity_available: u64,
        /// Reserved field, not populated by extraction.
        minimum_order_quantity: u64,
        /// Five-digit postal code of the listing's location.
        location_code: u64,
    },
    /// Placeholder stored when extraction failed for a discovered identifier,
    /// so that every identifier keeps a dataset entry. It has no address,
    /// location code zero, and ranks after every record with a known price.
    Unresolved,
}

impl Item {
    /// Structural soundness: a location code has at most five digits.
    pub open spec fn wf(self) -> bool {
        match self {
            Item::Complete { location_code, .. } => location_code < 100000,
            Item::Unresolved => true,
        }
    }

    /// The location code used by the region filter; a placeholder counts as
    /// location zero.
    pub open spec fn spec_location(self) -> u64 {
        match self {
            Item::Complete { location_code, .. } => location_code,
            Item::Unresolved => 0,
        }
    }

    pub fn location(&self) -> (r: u64)
        ensures
            r == self.spec_location(),
    {
        match self {
            Item::Complete { location_code, .. } => *location_code,
            Item::Unresolved => 0,
        }
    }

    /// Sort key of the rank order: known per-base-unit prices ascending,
    /// then every record without a usable price.
    pub open spec fn rank_key(self) -> int {
        match self {
            Item::Complete { price_per_base_unit: Price::Known(m), .. } => m.micros as int,
            Item::Complete { price_per_base_unit: Price::Unknown, .. } => u64::MAX as int + 1,
            Item::Unresolved => u64::MAX as int + 1,
        }
    }

    /// Whether `self` may stand before `other` in the rank order.
    pub fn ranks_no_later_than(&self, other: &Item) -> (r: bool)
        ensures
            r == (self.rank_key() <= other.rank_key()),
    {
        match (self, other) {
            (
                Item::Complete { price_per_base_unit: Price::Known(a), .. },
                Item::Complete { price_per_base_unit: Price::Known(b), .. },
            ) => a.micros <= b.micros,
            (Item::Complete { price_per_base_unit: Price::Known(_), .. }, _) => true,
            (Item::Unresolved, Item::Unresolved) => true,
            (Item::Unresolved, Item::Complete { price_per_base_unit, .. }) => match price_per_base_unit {
                Price::Known(_) => false,
                Price::Unknown => true,
            },
            (
                Item::Complete { price_per_base_unit: Price::Unknown, .. },
                Item::Complete { price_per_base_unit, .. },
            ) => match price_per_base_unit {
                Price::Known(_) => false,
                Price::Unknown => true,
            },
            (Item::Complete { price_per_base_unit: Price::Unknown, .. }, Item::Unresolved) => true,
        }
    }

    /// The canonical address this record points at: reconstructed from the
    /// identifier found on the detail page, empty for a placeholder.
    pub open spec fn spec_url(self) -> Seq<char> {
        match self {
            Item::Complete { url_id, .. } => spec_canonical_url(url_id),
            Item::Unresolved => Seq::empty(),
        }
    }

    pub fn url(&self) -> (r: String)
        ensures
            r@ == self.spec_url(),
    {
        match self {
            Item::Complete { url_id, .. } => canonical_url(*url_id),
            Item::Unresolved => {
                let s = String::new();
                assert(s@ =~= Seq::<char>::empty());
                s
            },
        }
    }
}

} // verus!
