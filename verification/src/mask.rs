//! Row selections, as the `lance_select` crate holds them.
use lance_select::RowAddrMask;
use vstd::prelude::*;

verus! {

/// `lance_select::RowAddrMask`: an allow list or a block list of row addresses.
/// Nothing is known of a mask but what [`selected_rows`] says of it.
#[verifier::external_type_specification]
#[verifier::external_body]
pub struct ExRowAddrMask(RowAddrMask);

/// The row addresses that a mask lets through: those on its allow list, or all
/// but those on its block list.
pub uninterp spec fn selected_rows(mask: RowAddrMask) -> Set<u64>;

/// `RowAddrMask::selected` tells whether one address is let through. It reads
/// the mask and nothing else, so a mask gives an address one answer, whenever it
/// is asked. The answers of one mask make up its [`selected_rows`].
pub assume_specification [RowAddrMask::selected](mask: &RowAddrMask, row_id: u64) -> (yes: bool)
    ensures
        yes == selected_rows(*mask).contains(row_id),
;

} // verus!
