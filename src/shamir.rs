//! The Shamir secret-sharing calls the splitter relies on, with what they
//! promise.
use vstd::prelude::*;

verus! {

#[verifier::external_type_specification]
#[verifier::external_body]
pub struct ExSSSError(shamirsecretsharing::SSSError);

/// What `hazmat::combine_keyshares` restores from a list of 33-byte key shares.
pub uninterp spec fn keyshares_combined(shares: Seq<Seq<u8>>) -> Seq<u8>;

/// What `combine_shares` restores from a list of 113-byte shares, if anything.
pub uninterp spec fn shares_combined(shares: Seq<Seq<u8>>) -> Option<Seq<u8>>;

/// `sub` lists distinct members of `shares`, at least `k` of them.
pub open spec fn threshold_subset(sub: Seq<Seq<u8>>, shares: Seq<Seq<u8>>, k: nat) -> bool {
    &&& sub.no_duplicates()
    &&& sub.len() >= k
    &&& forall|i: int| 0 <= i < sub.len() ==> shares.contains(#[trigger] sub[i])
}

/// Any `k` distinct key shares of the set restore `key`.
pub open spec fn keyshares_recover(shares: Seq<Seq<u8>>, k: nat, key: Seq<u8>) -> bool {
    forall|sub: Seq<Seq<u8>>|
        threshold_subset(sub, shares, k) ==> #[trigger] keyshares_combined(sub) == key
}

/// Any `k` distinct shares of the set restore `data`.
pub open spec fn shares_recover(shares: Seq<Seq<u8>>, k: nat, data: Seq<u8>) -> bool {
    forall|sub: Seq<Seq<u8>>|
        threshold_subset(sub, shares, k) ==> #[trigger] shares_combined(sub) == Some(data)
}

/// Every share has `len` bytes.
pub open spec fn all_sized(shares: Seq<Seq<u8>>, len: nat) -> bool {
    forall|i: int| 0 <= i < shares.len() ==> (#[trigger] shares[i]).len() == len
}

/// Share `i` of a set has `len` bytes and starts with its x-coordinate `i + 1`.
pub open spec fn indexed_shares(shares: Seq<Seq<u8>>, len: nat) -> bool {
    forall|i: int|
        0 <= i < shares.len() ==> (#[trigger] shares[i]).len() == len && shares[i][0] == i + 1
}

/// Relies on `shamirsecretsharing::hazmat::create_keyshares`: it refuses
/// `n < 1`, `k < 1`, `k > n` and keys other than 32 bytes; otherwise it returns
/// `n` shares of 33 bytes, share `i` starting with the x-coordinate `i + 1`,
/// any `k` of which restore the key.
#[verifier::external_body]
pub(crate) fn split_key(key: &[u8], n: u8, k: u8) -> (r: Result<Vec<Vec<u8>>, shamirsecretsharing::SSSError>)
    ensures
        r is Err <==> (n < 1 || k < 1 || k > n || key@.len() != 32),
        r matches Ok(s) ==> {
            &&& s@.len() == n
            &&& indexed_shares(s.deep_view(), 33)
            &&& keyshares_recover(s.deep_view(), k as nat, key@)
        },
{
    shamirsecretsharing::hazmat::create_keyshares(key, n, k)
}

/// Relies on `shamirsecretsharing::hazmat::combine_keyshares`: it refuses a
/// share that is not 33 bytes, and otherwise returns a 32-byte key computed
/// from the shares alone.
#[verifier::external_body]
pub(crate) fn combine_key(shares: &Vec<Vec<u8>>) -> (r: Result<Vec<u8>, shamirsecretsharing::SSSError>)
    ensures
        r is Err <==> !all_sized(shares.deep_view(), 33),
        r matches Ok(k) ==> k@ == keyshares_combined(shares.deep_view()) && k@.len() == 32,
{
    shamirsecretsharing::hazmat::combine_keyshares(shares)
}

/// Relies on `shamirsecretsharing::create_shares`: it refuses `n < 1`, `k < 1`,
/// `k > n` and data other than 64 bytes; otherwise it returns `n` shares of 113
/// bytes, each starting with its key share's x-coordinate `i + 1`, any `k` of
/// which restore the data.
#[verifier::external_body]
pub(crate) fn split_data(data: &[u8], n: u8, k: u8) -> (r: Result<Vec<Vec<u8>>, shamirsecretsharing::SSSError>)
    ensures
        r is Err <==> (n < 1 || k < 1 || k > n || data@.len() != 64),
        r matches Ok(s) ==> {
            &&& s@.len() == n
            &&& indexed_shares(s.deep_view(), 113)
            &&& shares_recover(s.deep_view(), k as nat, data@)
        },
{
    shamirsecretsharing::create_shares(data, n, k)
}

/// Relies on `shamirsecretsharing::combine_shares`: it refuses a share that is
/// not 113 bytes, and otherwise returns the restored data or nothing, computed
/// from the shares alone.
#[verifier::external_body]
pub(crate) fn combine_data(shares: &Vec<Vec<u8>>) -> (r: Result<Option<Vec<u8>>, shamirsecretsharing::SSSError>)
    ensures
        r is Err <==> !all_sized(shares.deep_view(), 113),
        r matches Ok(d) ==> match d {
            Some(v) => shares_combined(shares.deep_view()) == Some(v@),
            None => shares_combined(shares.deep_view()) is None,
        },
{
    shamirsecretsharing::combine_shares(shares)
}

} // verus!
