//! The order of versions, as the conda rules have it.

use std::cmp::Ordering;
use std::str::FromStr;
use vstd::prelude::*;

use crate::text::Rank;

verus! {

/// How the version `a` stands to the version `b` in the order of
/// `rattler_conda_types`, versions that are equal taken by their texts;
/// `None` where one of them cannot be read.
pub uninterp spec fn version_order(a: Seq<char>, b: Seq<char>) -> Option<Rank>;

/// Calls `VersionWithSource::from_str` on both texts and `Ord::cmp` on what
/// it gave. Claimed: the answer depends on the two texts alone.
#[verifier::external_body]
pub(crate) fn order_versions(a: &str, b: &str) -> (res: Option<Rank>)
    ensures
        res == version_order(a@, b@),
{
    let left = rattler_conda_types::VersionWithSource::from_str(a).ok()?;
    let right = rattler_conda_types::VersionWithSource::from_str(b).ok()?;
    Some(
        match left.cmp(&right) {
            Ordering::Less => Rank::Less,
            Ordering::Equal => Rank::Equal,
            Ordering::Greater => Rank::Greater,
        },
    )
}

} // verus!
