//! Digests of headers and transactions, and the Merkle root of a block's
//! transaction list.

use vstd::prelude::*;
use crate::codec::{Block, Transaction};

verus! {

/// Largest input the digest accepts: its bit count must fit in 64 bits.
pub const MAX_DIGEST_INPUT: u64 = 0x1fff_ffff_ffff_ffff;

/// The SHA-256 digest of a byte sequence.
pub uninterp spec fn sha256_of(data: Seq<u8>) -> Seq<u8>;

/// Relies on crypto::sha2::Sha256 with crypto::digest::Digest: `result`
/// writes the 32-byte SHA-256 digest of what was input. Its bit counter
/// panics from 2^61 input bytes on, hence the bound.
#[verifier::external_body]
fn sha256(data: &[u8]) -> (r: Vec<u8>)
    requires
        data@.len() <= MAX_DIGEST_INPUT,
    ensures
        r@ == sha256_of(data@),
        r@.len() == 32,
{
    let mut hasher = crypto::sha2::Sha256::new();
    crypto::digest::Digest::input(&mut hasher, data);
    let mut out = vec![0u8; 32];
    crypto::digest::Digest::result(&mut hasher, &mut out);
    out
}

/// The double digest used for block hashes, transaction ids and Merkle nodes.
pub open spec fn dhash(data: Seq<u8>) -> Seq<u8> {
    sha256_of(sha256_of(data))
}

/// Computes the double digest of `data`.
pub fn double_sha256(data: &[u8]) -> (r: Vec<u8>)
    requires
        data@.len() <= MAX_DIGEST_INPUT,
    ensures
        r@ == dhash(data@),
        r@.len() == 32,
{
    let first = sha256(data);
    sha256(first.as_slice())
}

/// One level of the Merkle tree: siblings are paired and hashed together; a
/// last node without a sibling is paired with itself.
pub open spec fn merkle_level(hs: Seq<Seq<u8>>) -> Seq<Seq<u8>>
    decreases hs.len(),
{
    if hs.len() == 0 {
        Seq::empty()
    } else if hs.len() == 1 {
        seq![dhash(hs[0] + hs[0])]
    } else {
        seq![dhash(hs[0] + hs[1])] + merkle_level(hs.subrange(2, hs.len() as int))
    }
}

pub proof fn lemma_merkle_level_len(hs: Seq<Seq<u8>>)
    ensures
        merkle_level(hs).len() == (hs.len() + 1) / 2,
    decreases hs.len(),
{
    if hs.len() >= 2 {
        lemma_merkle_level_len(hs.subrange(2, hs.len() as int));
    }
}

/// The Merkle root of a list of leaf digests; 32 zero bytes for no leaves.
pub open spec fn merkle_root_of(hs: Seq<Seq<u8>>) -> Seq<u8>
    decreases hs.len(),
    via merkle_root_decreases
{
    if hs.len() == 0 {
        Seq::new(32, |i: int| 0u8)
    } else if hs.len() == 1 {
        hs[0]
    } else {
        merkle_root_of(merkle_level(hs))
    }
}

#[via_fn]
proof fn merkle_root_decreases(hs: Seq<Seq<u8>>) {
    if hs.len() > 1 {
        lemma_merkle_level_len(hs);
    }
}

pub open spec fn byte_views(v: Seq<Vec<u8>>) -> Seq<Seq<u8>> {
    v.map_values(|x: Vec<u8>| x@)
}

/// The identifiers of a list of transactions: the double digest of each.
pub open spec fn txids(txs: Seq<Transaction>) -> Seq<Seq<u8>> {
    txs.map_values(|t: Transaction| dhash(t.raw@))
}

/// `a` followed by `b`.
fn concat(a: &[u8], b: &[u8]) -> (r: Vec<u8>)
    requires
        a@.len() + b@.len() <= usize::MAX,
    ensures
        r@ == a@ + b@,
{
    let mut r: Vec<u8> = Vec::with_capacity(a.len() + b.len());
    let mut i: usize = 0;
    while i < a.len()
        invariant
            i <= a@.len(),
            r@ == a@.subrange(0, i as int),
        decreases a@.len() - i,
    {
        r.push(a[i]);
        i = i + 1;
        assert(r@ =~= a@.subrange(0, i as int));
    }
    let mut j: usize = 0;
    while j < b.len()
        invariant
            j <= b@.len(),
            r@ == a@ + b@.subrange(0, j as int),
        decreases b@.len() - j,
    {
        r.push(b[j]);
        j = j + 1;
        assert(r@ =~= a@ + b@.subrange(0, j as int));
    }
    assert(b@.subrange(0, b@.len() as int) =~= b@);
    r
}

/// Whether two byte strings are equal.
pub fn bytes_eq(a: &[u8], b: &[u8]) -> (r: bool)
    ensures
        r == (a@ == b@),
{
    if a.len() != b.len() {
        return false;
    }
    let mut i: usize = 0;
    while i < a.len()
        invariant
            a@.len() == b@.len(),
            i <= a@.len(),
            forall|k: int| 0 <= k < i ==> a@[k] == b@[k],
        decreases a@.len() - i,
    {
        if a[i] != b[i] {
            return false;
        }
        i = i + 1;
    }
    assert(a@ =~= b@);
    true
}

/// Computes one level of the tree over 32-byte nodes.
fn next_level(hs: &Vec<Vec<u8>>) -> (r: Vec<Vec<u8>>)
    requires
        forall|k: int| 0 <= k < hs@.len() ==> hs@[k]@.len() == 32,
    ensures
        byte_views(r@) == merkle_level(byte_views(hs@)),
        forall|k: int| 0 <= k < r@.len() ==> r@[k]@.len() == 32,
{
    let ghost all = byte_views(hs@);
    let mut r: Vec<Vec<u8>> = Vec::new();
    let mut i: usize = 0;
    assert(all.subrange(0, all.len() as int) =~= all);
    while i < hs.len()
        invariant
            i <= hs@.len(),
            all == byte_views(hs@),
            forall|k: int| 0 <= k < hs@.len() ==> hs@[k]@.len() == 32,
            forall|k: int| 0 <= k < r@.len() ==> r@[k]@.len() == 32,
            merkle_level(all) == byte_views(r@) + merkle_level(
                all.subrange(i as int, all.len() as int),
            ),
        decreases hs@.len() - i,
    {
        let ghost rest = all.subrange(i as int, all.len() as int);
        let left = &hs[i];
        let right = if i + 1 < hs.len() { &hs[i + 1] } else { &hs[i] };
        let joined = concat(left.as_slice(), right.as_slice());
        let node = double_sha256(joined.as_slice());
        let ghost before = byte_views(r@);
        r.push(node);
        proof {
            assert(byte_views(r@) =~= before.push(node@));
            assert(rest[0] == hs@[i as int]@);
            if i + 1 < hs.len() {
                assert(rest[1] == hs@[i + 1]@);
                assert(rest.subrange(2, rest.len() as int) =~= all.subrange(
                    i + 2,
                    all.len() as int,
                ));
                assert(merkle_level(all) == before + (seq![node@] + merkle_level(
                    all.subrange(i + 2, all.len() as int),
                )));
                assert(before + (seq![node@] + merkle_level(all.subrange(i + 2, all.len() as int)))
                    =~= byte_views(r@) + merkle_level(all.subrange(i + 2, all.len() as int)));
            } else {
                assert(rest.len() == 1);
                assert(all.subrange(i + 1, all.len() as int) =~= Seq::<Seq<u8>>::empty());
                assert(merkle_level(all) == before + seq![node@]);
                assert(byte_views(r@) + merkle_level(Seq::<Seq<u8>>::empty()) =~= byte_views(r@));
            }
        }
        i = if i + 1 < hs.len() { i + 2 } else { i + 1 };
    }
    proof {
        assert(all.subrange(i as int, all.len() as int) =~= Seq::<Seq<u8>>::empty());
        assert(byte_views(r@) + Seq::<Seq<u8>>::empty() =~= byte_views(r@));
    }
    r
}

/// Recomputes the Merkle root of a transaction list.
pub fn merkle_root(txs: &Vec<Transaction>) -> (r: Vec<u8>)
    requires
        forall|k: int| 0 <= k < txs@.len() ==> txs@[k].raw@.len() <= MAX_DIGEST_INPUT,
    ensures
        r@ == merkle_root_of(txids(txs@)),
{
    let mut level: Vec<Vec<u8>> = Vec::new();
    let mut i: usize = 0;
    while i < txs.len()
        invariant
            i <= txs@.len(),
            forall|k: int| 0 <= k < txs@.len() ==> txs@[k].raw@.len() <= MAX_DIGEST_INPUT,
            forall|k: int| 0 <= k < level@.len() ==> level@[k]@.len() == 32,
            byte_views(level@) == txids(txs@.subrange(0, i as int)),
        decreases txs@.len() - i,
    {
        let id = double_sha256(txs[i].raw.as_slice());
        let ghost before = byte_views(level@);
        level.push(id);
        proof {
            assert(byte_views(level@) =~= before.push(id@));
            assert(txids(txs@.subrange(0, i + 1)) =~= txids(txs@.subrange(0, i as int)).push(
                dhash(txs@[i as int].raw@),
            ));
        }
        i = i + 1;
    }
    assert(txs@.subrange(0, txs@.len() as int) =~= txs@);
    if level.len() == 0 {
        return vec![0u8; 32];
    }
    while level.len() > 1
        invariant
            level@.len() >= 1,
            forall|k: int| 0 <= k < level@.len() ==> level@[k]@.len() == 32,
            merkle_root_of(byte_views(level@)) == merkle_root_of(txids(txs@)),
        decreases level@.len(),
    {
        let next = next_level(&level);
        proof {
            lemma_merkle_level_len(byte_views(level@));
        }
        level = next;
    }
    level[0].clone()
}


/// Whether the block's declared Merkle root matches its transactions.
pub fn verify_merkle_root(block: &Block) -> (r: bool)
    requires
        forall|k: int| 0 <= k < block.txs@.len() ==> block.txs@[k].raw@.len() <= MAX_DIGEST_INPUT,
    ensures
        r == (merkle_root_of(txids(block.txs@)) == block.header.merkle_root@),
{
    let root = merkle_root(&block.txs);
    bytes_eq(root.as_slice(), block.header.merkle_root.as_slice())
}

/// The block's own hash: the double digest of its serialized header.
pub fn block_hash(block: &Block) -> (r: Vec<u8>)
    requires
        block.header_bytes@.len() <= MAX_DIGEST_INPUT,
    ensures
        r@ == dhash(block.header_bytes@),
        r@.len() == 32,
{
    double_sha256(block.header_bytes.as_slice())
}

} // verus!
