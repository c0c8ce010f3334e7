//! Range facts about the stored aggregates: what lives in an `i64` is
//! bounded by it.

use vstd::prelude::*;

use crate::book::PriceLevel;

verus! {

/// Both aggregates of a level fit the machine words that store them.
pub proof fn lemma_level_in_range(l: PriceLevel)
    ensures
        i64::MIN <= l@.total <= i64::MAX && i64::MIN <= l@.open <= i64::MAX,
{
    broadcast use crate::price::lemma_price_in_range;

}

} // verus!
