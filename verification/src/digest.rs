//! Ring positions.
//!
//! A position on the ring is the MD5 digest of a short decimal byte string,
//! read as a 128-bit big-endian number. Reading the sixteen digest bytes as a
//! number orders positions exactly as the digest's lowercase hex rendering
//! orders them lexicographically, so the circle of positions is the usual one
//! for a hex-keyed ring.
//!
//! A node with stable hash `h` occupies one position per virtual index `i`,
//! derived from the byte string `"<i>:<h>"`; a lookup key with stable hash
//! `h` is placed at the position derived from `"<h>"` alone.

use crate::bytes::be_u128;
use crate::bytes::be_val;
use crate::bytes::dec_bytes;
use crate::bytes::lemma_be_val_16_bytes;
use crate::bytes::push_decimal;
use crypto::digest::Digest;
use crypto::md5::Md5;
use vstd::prelude::*;

verus! {

/// The sixteen-byte MD5 digest of `input`.
pub uninterp spec fn md5_of(input: Seq<u8>) -> Seq<u8>;

/// Relies on `crypto::md5::Md5` through `crypto::digest::Digest::input` and
/// `Digest::result`: the digest is a function of the input bytes alone, and
/// `Md5::output_bits` is 128, so `result` fills exactly sixteen bytes.
#[verifier::external_body]
fn md5_digest(input: &[u8]) -> (r: Vec<u8>)
    ensures
        r@ == md5_of(input@),
        r@.len() == 16,
{
    let mut context = Md5::new();
    context.input(input);
    let mut out: Vec<u8> = vec![0u8; 16];
    context.result(&mut out);
    out
}

/// The ring position derived from a byte string: its MD5 digest read as a
/// big-endian number.
pub open spec fn pos_of(input: Seq<u8>) -> u128 {
    be_val(md5_of(input)) as u128
}

/// The byte string `"<i>:<h>"` placed on the ring for virtual index `i` of a
/// node with stable hash `h`.
pub open spec fn virtual_input(i: nat, h: u64) -> Seq<u8> {
    dec_bytes(i) + seq![58u8] + dec_bytes(h as nat)
}

/// The ring position of virtual index `i` of a node with stable hash `h`.
pub open spec fn virtual_pos(h: u64, i: nat) -> u128 {
    pos_of(virtual_input(i, h))
}

/// The ring position a lookup key with stable hash `h` is placed at: derived
/// from the byte string `"<h>"`, with no virtual-index prefix.
pub open spec fn key_pos(h: u64) -> u128 {
    pos_of(dec_bytes(h as nat))
}

/// Every ring position belonging to a node with stable hash `h` when each
/// node occupies `v` virtual positions.
pub open spec fn node_positions(h: u64, v: int) -> Set<u128> {
    Set::new(|p: u128| exists|i: int| 0 <= i < v && p == #[trigger] virtual_pos(h, i as nat))
}

/// One more virtual index claims exactly one more position.
pub proof fn lemma_node_positions_step(h: u64, i: int)
    requires
        0 <= i,
    ensures
        node_positions(h, i + 1) == node_positions(h, i).insert(virtual_pos(h, i as nat)),
{
    let p_i = virtual_pos(h, i as nat);
    assert forall|q: u128| #[trigger]
        node_positions(h, i + 1).contains(q) implies node_positions(h, i).insert(p_i).contains(
        q,
    ) by {
        let j = choose|j: int| 0 <= j < i + 1 && q == #[trigger] virtual_pos(h, j as nat);
        if j < i {
            assert(node_positions(h, i).contains(q));
        }
    }
    assert forall|q: u128| #[trigger]
        node_positions(h, i).insert(p_i).contains(q) implies node_positions(h, i + 1).contains(
        q,
    ) by {
        if node_positions(h, i).contains(q) {
            let j = choose|j: int| 0 <= j < i && q == #[trigger] virtual_pos(h, j as nat);
            assert(0 <= j < i + 1 && q == virtual_pos(h, j as nat));
        } else {
            assert(0 <= i < i + 1 && q == virtual_pos(h, i as nat));
        }
    }
    assert(node_positions(h, i + 1) =~= node_positions(h, i).insert(p_i));
}

/// No virtual indices claim no positions.
pub proof fn lemma_node_positions_none(h: u64, k: int)
    requires
        k <= 0,
    ensures
        node_positions(h, k) == Set::<u128>::empty(),
{
    assert(node_positions(h, k) =~= Set::<u128>::empty());
}

/// Computes the ring position of virtual index `i` of a node with stable
/// hash `h`.
pub fn compute_virtual_pos(i: u64, h: u64) -> (p: u128)
    ensures
        p == virtual_pos(h, i as nat),
{
    let mut input: Vec<u8> = Vec::new();
    push_decimal(i, &mut input);
    input.push(58);
    push_decimal(h, &mut input);
    proof {
        assert(input@ =~= virtual_input(i as nat, h));
    }
    digest_position(&input)
}

/// Computes the ring position of a lookup key with stable hash `h`.
pub fn compute_key_pos(h: u64) -> (p: u128)
    ensures
        p == key_pos(h),
{
    let mut input: Vec<u8> = Vec::new();
    push_decimal(h, &mut input);
    digest_position(&input)
}

/// Digests a byte string and reads the result as a position.
fn digest_position(input: &Vec<u8>) -> (p: u128)
    ensures
        p == pos_of(input@),
{
    let digest = md5_digest(input.as_slice());
    let p = be_u128(digest.as_slice());
    proof {
        lemma_be_val_16_bytes(digest@);
    }
    p
}

} // verus!
