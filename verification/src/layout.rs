//! Byte offsets of the fields of the challenge blob. Every sequence is
//! length-prefixed by 8 bytes; a group element takes 96 bytes uncompressed
//! and a field element 32 bytes. The offsets are a pure function of the
//! element widths and the input counts, never constants of one instance.
use vstd::prelude::*;

verus! {

/// End offsets (exclusive) of the consecutive fields of the challenge blob:
/// the setup points, the account vectors, the two challenges, the target
/// commitment, and the two openings.
#[derive(Debug)]
pub struct BlobLayout {
    pub setup_end: usize,
    pub accounts_end: usize,
    pub challenge_1_end: usize,
    pub challenge_2_end: usize,
    pub commitment_end: usize,
    pub opening_1_end: usize,
    pub opening_2_end: usize,
}

/// Computes the field offsets for a blob holding `setup_count` setup points
/// and `account_count` account vectors of `account_len` field elements each.
/// Fails only when the blob would not fit in the address space.
pub fn blob_layout(setup_count: usize, account_count: usize, account_len: usize) -> (r: Option<
    BlobLayout,
>)
    requires
        setup_count <= 0xffff_ffffusize,
        account_count <= 0xffff_ffffusize,
        account_len <= 0xffff_ffffusize,
    ensures
        r is Some <==> 8 + 96 * (setup_count as nat) + 8 + (account_count as nat) * (8 + 32 * (
        account_len as nat)) + 224 <= usize::MAX,
        r matches Some(l) ==> {
            &&& l.setup_end == 8 + 96 * (setup_count as nat)
            &&& l.accounts_end == l.setup_end + 8 + (account_count as nat) * (8 + 32 * (
            account_len as nat))
            &&& l.challenge_1_end == l.accounts_end + 32
            &&& l.challenge_2_end == l.challenge_1_end + 32
            &&& l.commitment_end == l.challenge_2_end + 96
            &&& l.opening_1_end == l.commitment_end + 32
            &&& l.opening_2_end == l.opening_1_end + 32
        },
{
    let setup_bytes: u128 = 8 + 96 * (setup_count as u128);
    proof {
        assert((account_count as nat) * (8 + 32 * (account_len as nat)) < 0x10000000000000000000)
            by (nonlinear_arith)
            requires
                account_count <= 0xffff_ffffusize,
                account_len <= 0xffff_ffffusize,
        ;
    }
    let account_bytes: u128 = (account_count as u128) * (8 + 32 * (account_len as u128));
    let total: u128 = setup_bytes + 8 + account_bytes + 224;
    if total > (usize::MAX as u128) {
        return None;
    }
    let setup_end: usize = setup_bytes as usize;
    let accounts_end: usize = (setup_bytes + 8 + account_bytes) as usize;
    let challenge_1_end: usize = accounts_end + 32;
    let challenge_2_end: usize = challenge_1_end + 32;
    let commitment_end: usize = challenge_2_end + 96;
    let opening_1_end: usize = commitment_end + 32;
    let opening_2_end: usize = opening_1_end + 32;
    Some(
        BlobLayout {
            setup_end,
            accounts_end,
            challenge_1_end,
            challenge_2_end,
            commitment_end,
            opening_1_end,
            opening_2_end,
        },
    )
}

} // verus!
