//! The header pass: every block record of every archive file becomes a
//! header node, and the nodes yield the canonical chain.

use vstd::prelude::*;
use crate::codec::{
    DecodeError, RecordSpan, frames_from, span_views, scan_records, copy_range,
    lemma_frames_in_bounds,
};
use crate::chain::{
    BlockLocation, HeaderNode, hash_at, read_hash, canonical, canonical_chain, idx_views,
};
use crate::merkle::{dhash, double_sha256};

verus! {

/// The header node of the record whose payload starts at `off` in file `file`.
pub open spec fn node_of(s: Seq<u8>, file: u64, off: int, len: int) -> HeaderNode {
    HeaderNode {
        hash: hash_at(dhash(s.subrange(off, off + 80)), 0),
        prev: hash_at(s, off + 4),
        loc: BlockLocation { file_index: file, offset: off as u64, len: len as u64 },
    }
}

/// The header nodes of an archive file's records, in file order; none when a
/// frame is malformed or a payload is too short to hold a header.
pub open spec fn file_nodes(s: Seq<u8>, file: u64) -> Option<Seq<HeaderNode>> {
    match frames_from(s, 0) {
        Some(spans) => if forall|k: int| 0 <= k < spans.len() ==> (#[trigger] spans[k]).1 >= 80 {
            Some(spans.map_values(|x: (int, int)| node_of(s, file, x.0, x.1)))
        } else {
            None
        },
        None => None,
    }
}

/// Appends the header nodes of one archive file.
pub fn scan_file_headers(file: u64, s: &[u8], nodes: &mut Vec<HeaderNode>) -> (r: Result<
    (),
    DecodeError,
>)
    ensures
        match file_nodes(s@, file) {
            Some(found) => r is Ok && final(nodes)@ == old(nodes)@ + found,
            None => r == Err::<(), DecodeError>(DecodeError::MalformedRecord),
        },
{
    let spans = scan_records(s)?;
    let ghost sv = span_views(spans@);
    let ghost base = nodes@;
    proof {
        lemma_frames_in_bounds(s@, 0);
        assert forall|k: int| 0 <= k < spans@.len() implies (#[trigger] spans@[k]).offset
            + spans@[k].len <= s@.len() by {
            assert(sv[k] == (spans@[k].offset as int, spans@[k].len as int));
        }
    }
    let mut i: usize = 0;
    while i < spans.len()
        invariant
            i <= spans@.len(),
            sv == span_views(spans@),
            frames_from(s@, 0) == Some(sv),
            forall|k: int| 0 <= k < i ==> (#[trigger] sv[k]).1 >= 80,
            nodes@ == base + sv.subrange(0, i as int).map_values(
                |x: (int, int)| node_of(s@, file, x.0, x.1),
            ),
            forall|k: int|
                0 <= k < spans@.len() ==> (#[trigger] spans@[k]).offset + spans@[k].len <= s@.len(),
        decreases spans@.len() - i,
    {
        let sp: RecordSpan = spans[i];
        assert(sv[i as int] == (sp.offset as int, sp.len as int));
        if sp.len < 80 {
            return Err(DecodeError::MalformedRecord);
        }
        let _len = s.len();
        assert(sp.offset + sp.len <= s@.len());
        let header = copy_range(s, sp.offset, sp.offset + 80);
        let digest = double_sha256(header.as_slice());
        let node = HeaderNode {
            hash: read_hash(digest.as_slice(), 0),
            prev: read_hash(s, sp.offset + 4),
            loc: BlockLocation { file_index: file, offset: sp.offset as u64, len: sp.len as u64 },
        };
        nodes.push(node);
        i = i + 1;
        assert(sv.subrange(0, i as int).map_values(|x: (int, int)| node_of(s@, file, x.0, x.1))
            =~= sv.subrange(0, i - 1).map_values(|x: (int, int)| node_of(s@, file, x.0, x.1)).push(
            node,
        ));
        assert(nodes@ =~= base + sv.subrange(0, i as int).map_values(
            |x: (int, int)| node_of(s@, file, x.0, x.1),
        ));
    }
    assert(sv.subrange(0, i as int) =~= sv);
    Ok(())
}


pub open spec fn file_views(files: Seq<Vec<u8>>) -> Seq<Seq<u8>> {
    files.map_values(|f: Vec<u8>| f@)
}

/// The header nodes of the first `n` archive files, numbered from `first`.
pub open spec fn scan_nodes(files: Seq<Seq<u8>>, first: nat, n: nat) -> Option<Seq<HeaderNode>>
    decreases n,
{
    if n == 0 {
        Some(Seq::empty())
    } else {
        match scan_nodes(files, first, (n - 1) as nat) {
            Some(pre) => match file_nodes(files[n - 1], (first + n - 1) as u64) {
                Some(found) => Some(pre + found),
                None => None,
            },
            None => None,
        }
    }
}

proof fn lemma_scan_fails_on(files: Seq<Seq<u8>>, first: nat, i: nat, m: nat)
    requires
        i <= m,
        scan_nodes(files, first, i) is None,
    ensures
        scan_nodes(files, first, m) is None,
    decreases m,
{
    if m > i {
        lemma_scan_fails_on(files, first, i, (m - 1) as nat);
    }
}

/// Scans the headers of the archive files in order; file `k` of the list
/// carries archive index `first + k`.
pub fn scan_headers(files: &Vec<Vec<u8>>, first: u64) -> (r: Result<Vec<HeaderNode>, DecodeError>)
    requires
        first + files@.len() <= u64::MAX,
    ensures
        match scan_nodes(file_views(files@), first as nat, files@.len()) {
            Some(found) => r matches Ok(v) && v@ == found,
            None => r == Err::<Vec<HeaderNode>, DecodeError>(DecodeError::MalformedRecord),
        },
{
    let ghost fv = file_views(files@);
    let mut nodes: Vec<HeaderNode> = Vec::new();
    let mut i: usize = 0;
    while i < files.len()
        invariant
            i <= files@.len(),
            first + files@.len() <= u64::MAX,
            fv == file_views(files@),
            scan_nodes(fv, first as nat, i as nat) == Some(nodes@),
        decreases files@.len() - i,
    {
        assert(fv[i as int] == files@[i as int]@);
        match scan_file_headers(first + i as u64, files[i].as_slice(), &mut nodes) {
            Ok(()) => {},
            Err(e) => {
                proof {
                    lemma_scan_fails_on(fv, first as nat, (i + 1) as nat, files@.len());
                }
                return Err(e);
            },
        }
        i = i + 1;
    }
    Ok(nodes)
}

/// The nodes of the canonical chain, from genesis to the best tip.
pub open spec fn canonical_nodes_spec(nodes: Seq<HeaderNode>) -> Seq<HeaderNode> {
    canonical(nodes).map_values(|i: int| nodes[i])
}

/// Selects the canonical chain of a header scan.
pub fn canonical_nodes(nodes: &Vec<HeaderNode>) -> (r: Vec<HeaderNode>)
    ensures
        r@ == canonical_nodes_spec(nodes@),
{
    let idx = canonical_chain(nodes);
    proof {
        crate::chain::lemma_canonical_linked(nodes@);
    }
    let mut out: Vec<HeaderNode> = Vec::new();
    let mut k: usize = 0;
    while k < idx.len()
        invariant
            k <= idx@.len(),
            idx_views(idx@) == canonical(nodes@),
            forall|q: int| 0 <= q < idx@.len() ==> 0 <= #[trigger] canonical(nodes@)[q] < nodes@.len(),
            out@ == canonical(nodes@).subrange(0, k as int).map_values(|i: int| nodes@[i]),
        decreases idx@.len() - k,
    {
        assert(canonical(nodes@)[k as int] == idx@[k as int] as int);
        out.push(nodes[idx[k]]);
        k = k + 1;
        assert(out@ =~= canonical(nodes@).subrange(0, k as int).map_values(|i: int| nodes@[i]));
    }
    assert(canonical(nodes@).subrange(0, k as int) =~= canonical(nodes@));
    out
}

/// The canonical chain is contiguous from a genesis block, so it can always
/// become a chain record.
pub proof fn lemma_canonical_nodes_linked(nodes: Seq<HeaderNode>)
    ensures
        crate::storage::linked(canonical_nodes_spec(nodes)),
{
    crate::chain::lemma_canonical_linked(nodes);
}


/// A header pass over a single unbroken chain of N headers keeps all N of
/// them, in scan order: the record's entry `k` is header `k`, at height `k`.
pub proof fn lemma_linear_scan_keeps_all(nodes: Seq<HeaderNode>)
    requires
        crate::chain::is_linear_scan(nodes),
    ensures
        canonical_nodes_spec(nodes) == nodes,
        crate::storage::linked(canonical_nodes_spec(nodes)),
        forall|k: int| 0 <= k < nodes.len() ==> crate::chain::height_of(nodes, k) == Some(k as nat),
{
    crate::chain::lemma_linear_scan_canonical(nodes);
    lemma_canonical_nodes_linked(nodes);
    assert(canonical_nodes_spec(nodes) =~= nodes);
}

/// When one fork's tip `a` stands higher than every other header, the record
/// after a header pass holds exactly the headers on the chain ending at `a`.
pub proof fn lemma_longer_branch_recorded(nodes: Seq<HeaderNode>, a: int)
    requires
        0 <= a < nodes.len(),
        crate::chain::height_of(nodes, a) is Some,
        forall|k: int|
            0 <= k < nodes.len() && k != a ==> crate::chain::hval(nodes, k) < crate::chain::hval(
                nodes,
                a,
            ),
    ensures
        canonical_nodes_spec(nodes) == crate::chain::chain_to(nodes, a).map_values(
            |i: int| nodes[i],
        ),
{
    crate::chain::lemma_longer_branch_wins(nodes, a);
}

} // verus!
