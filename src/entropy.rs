//! Aggregate identifiers (UUIDs held as their 128-bit big-endian value) and
//! the entropy that an identifier contributes to a sortable id.

use vstd::prelude::*;

verus! {

/// The nil UUID: all 128 bits zero.
pub const NIL_UUID: u128 = 0;

/// 256 to the power `n`.
pub open spec fn pow256(n: nat) -> nat
    decreases n,
{
    if n == 0 {
        1
    } else {
        256 * pow256((n - 1) as nat)
    }
}

/// The number whose `n` low bytes are the `n` low bytes of `v` in reverse order.
pub open spec fn reverse_bytes(v: nat, n: nat) -> nat
    decreases n,
{
    if n == 0 {
        0
    } else {
        (v % 256) * pow256((n - 1) as nat) + reverse_bytes(v / 256, (n - 1) as nat)
    }
}

pub proof fn lemma_reverse_bytes_zero(n: nat)
    ensures
        reverse_bytes(0, n) == 0,
    decreases n,
{
    if n > 0 {
        assert(0nat / 256 == 0 && 0nat % 256 == 0);
        lemma_reverse_bytes_zero((n - 1) as nat);
        assert(0 * pow256((n - 1) as nat) == 0);
    }
}

/// Relies on uuid::Uuid::from_u128 (the value's bytes, most significant first)
/// and uuid::Uuid::to_u128_le (those bytes read least significant first): the
/// result is `id` with its sixteen bytes reversed.
#[verifier::external_body]
pub(crate) fn uuid_value_le(id: u128) -> (r: u128)
    ensures
        r as nat == reverse_bytes(id as nat, 16),
{
    uuid::Uuid::from_u128(id).to_u128_le()
}

/// Relies on uuid::Uuid::new_v4 and uuid::Uuid::as_u128: a random version-4
/// UUID as its big-endian value. Nothing is promised of the value.
#[verifier::external_body]
pub(crate) fn random_uuid() -> (r: u128) {
    uuid::Uuid::new_v4().as_u128()
}

} // verus!
