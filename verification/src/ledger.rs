//! The asset ledger's data: issued assets, on-chain unspent outputs and
//! the allocation of asset units to them, and the per-element measures the
//! balance sums are built from.

use vstd::prelude::*;

verus! {

/// An allocation of asset units to an unspent output.
#[derive(Clone, Copy, Debug, PartialEq, Eq, Structural)]
pub struct Alloc {
    /// The asset whose units sit on the output.
    pub asset_id: u64,
    /// How many units sit on the output.
    pub amount: u64,
}

/// An on-chain unspent output of the node's wallet. One carrying an
/// allocation is "colored": ordinary coin selection must leave it alone,
/// since spending it without moving its allocation destroys the units.
#[derive(Clone, Copy, Debug, PartialEq, Eq, Structural)]
pub struct Utxo {
    /// Stable handle of the outpoint.
    pub outpoint: u64,
    /// Satoshis on the output.
    pub amount_sat: u64,
    /// The asset allocation the output carries, if any.
    pub alloc: Option<Alloc>,
}

/// An issued asset as the ledger tracks it. `off_view` counts the units of
/// the issued supply that are outside this node's view (held by other
/// parties on chain); the ledger maintains that the in-view buckets plus
/// `off_view` always equal `issued_supply`.
#[derive(Debug)]
pub struct Asset {
    /// Content-derived, immutable identifier.
    pub asset_id: u64,
    /// Ticker bytes given at issuance.
    pub ticker: Vec<u8>,
    /// Name bytes given at issuance.
    pub name: Vec<u8>,
    /// Decimal precision given at issuance.
    pub precision: u8,
    /// Sum of all allocations at issuance; never increased.
    pub issued_supply: u64,
    /// Units of the issued supply outside this node's view.
    pub off_view: u64,
}

/// Field-wise sameness of two asset records.
pub open spec fn asset_like(a: Asset, b: Asset) -> bool {
    &&& a.asset_id == b.asset_id
    &&& a.ticker@ == b.ticker@
    &&& a.name@ == b.name@
    &&& a.precision == b.precision
    &&& a.issued_supply == b.issued_supply
    &&& a.off_view == b.off_view
}

impl Clone for Asset {
    fn clone(&self) -> (r: Self)
        ensures
            asset_like(*self, r),
    {
        Asset {
            asset_id: self.asset_id,
            ticker: copy_bytes(&self.ticker),
            name: copy_bytes(&self.name),
            precision: self.precision,
            issued_supply: self.issued_supply,
            off_view: self.off_view,
        }
    }
}

/// Copies a byte vector.
pub fn copy_bytes(v: &Vec<u8>) -> (r: Vec<u8>)
    ensures
        r@ == v@,
{
    let mut r: Vec<u8> = Vec::new();
    let mut i: usize = 0;
    while i < v.len()
        invariant
            i <= v@.len(),
            r@ == v@.take(i as int),
        decreases v@.len() - i,
    {
        r.push(v[i]);
        proof {
            assert(v@.take(i + 1) =~= v@.take(i as int).push(v@[i as int]));
        }
        i = i + 1;
    }
    proof {
        assert(v@.take(v@.len() as int) =~= v@);
    }
    r
}

/// Spendable units of asset `a` that a single output contributes: its
/// allocation when it carries one of that asset.
pub open spec fn spendable_contrib(u: Utxo, a: u64) -> int {
    match u.alloc {
        Some(al) => if al.asset_id == a {
            al.amount as int
        } else {
            0
        },
        None => 0,
    }
}

/// Satoshis a single output contributes to the on-chain balance.
pub open spec fn sat_contrib(u: Utxo) -> int {
    u.amount_sat as int
}

/// Satoshis of an uncolored output; colored outputs are excluded from
/// ordinary coin selection.
pub open spec fn uncolored_sat_contrib(u: Utxo) -> int {
    if u.alloc is None {
        u.amount_sat as int
    } else {
        0
    }
}


/// The spendable measure of asset `a`, as a function on outputs.
pub open spec fn spendable_f(a: u64) -> spec_fn(Utxo) -> int {
    |u: Utxo| spendable_contrib(u, a)
}

/// The total-satoshi measure on outputs.
pub open spec fn sat_f() -> spec_fn(Utxo) -> int {
    |u: Utxo| sat_contrib(u)
}

/// The uncolored-satoshi measure on outputs.
pub open spec fn uncolored_sat_f() -> spec_fn(Utxo) -> int {
    |u: Utxo| uncolored_sat_contrib(u)
}

} // verus!
