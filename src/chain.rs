//! The header graph: heights by previous-hash linkage and selection of the
//! canonical chain among forks.
//!
//! Nodes form an arena indexed by scan position. A node's parent is looked up
//! by hash among the nodes scanned before it, so every parent link points to
//! a smaller index: the links cannot form a cycle, even on adversarial data,
//! and every walk along them ends. A node whose parent was not scanned before
//! it has no height and stays out of the canonical chain.

use vstd::prelude::*;
use crate::codec::{le64, read_u64_le};

verus! {

/// A 32-byte block hash held as four little-endian 64-bit words.
#[derive(Debug, Clone, Copy, PartialEq, Eq, Structural)]
pub struct Hash256 {
    pub w0: u64,
    pub w1: u64,
    pub w2: u64,
    pub w3: u64,
}

/// The hash written in the 32 bytes at `p`.
pub open spec fn hash_at(s: Seq<u8>, p: int) -> Hash256 {
    Hash256 {
        w0: le64(s, p) as u64,
        w1: le64(s, p + 8) as u64,
        w2: le64(s, p + 16) as u64,
        w3: le64(s, p + 24) as u64,
    }
}

pub open spec fn zero_hash() -> Hash256 {
    Hash256 { w0: 0, w1: 0, w2: 0, w3: 0 }
}

/// Reads the hash in the 32 bytes at `p`.
pub fn read_hash(s: &[u8], p: usize) -> (r: Hash256)
    requires
        p + 32 <= s@.len(),
    ensures
        r == hash_at(s@, p as int),
{
    let _len = s.len();
    Hash256 {
        w0: read_u64_le(s, p),
        w1: read_u64_le(s, p + 8),
        w2: read_u64_le(s, p + 16),
        w3: read_u64_le(s, p + 24),
    }
}

pub fn is_zero_hash(h: Hash256) -> (r: bool)
    ensures
        r == (h == zero_hash()),
{
    h.w0 == 0 && h.w1 == 0 && h.w2 == 0 && h.w3 == 0
}

/// Where a block record lies: archive file index, payload offset and length.
#[derive(Debug, Clone, Copy, PartialEq, Eq, Structural)]
pub struct BlockLocation {
    pub file_index: u64,
    pub offset: u64,
    pub len: u64,
}

/// A block header seen during the header scan.
#[derive(Debug, Clone, Copy, PartialEq, Eq, Structural)]
pub struct HeaderNode {
    pub hash: Hash256,
    pub prev: Hash256,
    pub loc: BlockLocation,
}

/// The latest node before index `n` whose hash is `h`.
pub open spec fn find_prev(nodes: Seq<HeaderNode>, h: Hash256, n: int) -> Option<int>
    decreases n,
{
    if n <= 0 {
        None
    } else if nodes[n - 1].hash == h {
        Some(n - 1)
    } else {
        find_prev(nodes, h, n - 1)
    }
}

pub proof fn lemma_find_prev_range(nodes: Seq<HeaderNode>, h: Hash256, n: int)
    ensures
        find_prev(nodes, h, n) matches Some(j) ==> 0 <= j < n && nodes[j].hash == h,
    decreases n,
{
    if n > 0 && nodes[n - 1].hash != h {
        lemma_find_prev_range(nodes, h, n - 1);
    }
}

/// The parent of node `i`: the latest earlier node carrying its previous hash.
/// A node whose previous hash is zero is a genesis block and has no parent.
pub open spec fn parent_of(nodes: Seq<HeaderNode>, i: int) -> Option<int> {
    if nodes[i].prev == zero_hash() {
        None
    } else {
        find_prev(nodes, nodes[i].prev, i)
    }
}

/// Height of node `i`: 0 for a genesis block, one more than its parent's
/// otherwise; none when the chain back to a genesis block is broken.
pub open spec fn height_of(nodes: Seq<HeaderNode>, i: int) -> Option<nat>
    decreases i,
    via height_of_decreases
{
    if i < 0 || i >= nodes.len() {
        None
    } else if nodes[i].prev == zero_hash() {
        Some(0)
    } else {
        match parent_of(nodes, i) {
            Some(j) => match height_of(nodes, j) {
                Some(h) => Some(h + 1),
                None => None,
            },
            None => None,
        }
    }
}

#[via_fn]
proof fn height_of_decreases(nodes: Seq<HeaderNode>, i: int) {
    if 0 <= i < nodes.len() {
        lemma_find_prev_range(nodes, nodes[i].prev, i);
    }
}

pub proof fn lemma_height_le_index(nodes: Seq<HeaderNode>, i: int)
    ensures
        height_of(nodes, i) matches Some(h) ==> h <= i,
    decreases i,
{
    if 0 <= i < nodes.len() && nodes[i].prev != zero_hash() {
        lemma_find_prev_range(nodes, nodes[i].prev, i);
        if let Some(j) = parent_of(nodes, i) {
            lemma_height_le_index(nodes, j);
        }
    }
}

/// Height of node `k`, or -1 when it has none.
pub open spec fn hval(nodes: Seq<HeaderNode>, k: int) -> int {
    match height_of(nodes, k) {
        Some(h) => h as int,
        None => -1,
    }
}

/// The tip of the canonical chain among the first `n` nodes: the node of
/// greatest height, the earliest one scanned when several share it.
pub open spec fn best_tip(nodes: Seq<HeaderNode>, n: int) -> Option<int>
    decreases n,
{
    if n <= 0 {
        None
    } else {
        let b = best_tip(nodes, n - 1);
        if height_of(nodes, n - 1) is Some && (b is None || hval(nodes, n - 1) > hval(
            nodes,
            b->Some_0,
        )) {
            Some(n - 1)
        } else {
            b
        }
    }
}

/// The node indices from a genesis block up to node `i`, by parent links.
pub open spec fn chain_to(nodes: Seq<HeaderNode>, i: int) -> Seq<int>
    decreases i,
    via chain_to_decreases
{
    if i < 0 || i >= nodes.len() {
        Seq::empty()
    } else {
        match parent_of(nodes, i) {
            Some(j) => chain_to(nodes, j).push(i),
            None => seq![i],
        }
    }
}

#[via_fn]
proof fn chain_to_decreases(nodes: Seq<HeaderNode>, i: int) {
    if 0 <= i < nodes.len() {
        lemma_find_prev_range(nodes, nodes[i].prev, i);
    }
}

/// The canonical chain of a scan: node indices from genesis to the best tip.
pub open spec fn canonical(nodes: Seq<HeaderNode>) -> Seq<int> {
    match best_tip(nodes, nodes.len() as int) {
        Some(t) => chain_to(nodes, t),
        None => Seq::empty(),
    }
}


pub open spec fn opt_int(o: Option<usize>) -> Option<int> {
    match o {
        Some(x) => Some(x as int),
        None => None,
    }
}

pub open spec fn opt_nat(o: Option<usize>) -> Option<nat> {
    match o {
        Some(x) => Some(x as nat),
        None => None,
    }
}

pub open spec fn idx_views(v: Seq<usize>) -> Seq<int> {
    v.map_values(|x: usize| x as int)
}

/// Finds the latest node before index `n` whose hash is `h`.
fn find_prev_index(nodes: &Vec<HeaderNode>, h: Hash256, n: usize) -> (r: Option<usize>)
    requires
        n <= nodes@.len(),
    ensures
        opt_int(r) == find_prev(nodes@, h, n as int),
{
    let mut j = n;
    while j > 0
        invariant
            j <= n <= nodes@.len(),
            find_prev(nodes@, h, n as int) == find_prev(nodes@, h, j as int),
        decreases j,
    {
        if nodes[j - 1].hash == h {
            return Some(j - 1);
        }
        j = j - 1;
    }
    None
}

/// Links every node to its parent and gives it its height.
pub fn link_headers(nodes: &Vec<HeaderNode>) -> (r: (Vec<Option<usize>>, Vec<Option<usize>>))
    ensures
        r.0@.len() == nodes@.len(),
        r.1@.len() == nodes@.len(),
        forall|k: int| 0 <= k < nodes@.len() ==> opt_int(#[trigger] r.0@[k]) == parent_of(nodes@, k),
        forall|k: int| 0 <= k < nodes@.len() ==> opt_nat(#[trigger] r.1@[k]) == height_of(nodes@, k),
{
    let mut parents: Vec<Option<usize>> = Vec::new();
    let mut heights: Vec<Option<usize>> = Vec::new();
    let mut i: usize = 0;
    while i < nodes.len()
        invariant
            i <= nodes@.len(),
            parents@.len() == i,
            heights@.len() == i,
            forall|k: int| 0 <= k < i ==> opt_int(#[trigger] parents@[k]) == parent_of(nodes@, k),
            forall|k: int| 0 <= k < i ==> opt_nat(#[trigger] heights@[k]) == height_of(nodes@, k),
        decreases nodes@.len() - i,
    {
        let node = nodes[i];
        if is_zero_hash(node.prev) {
            parents.push(None);
            heights.push(Some(0));
        } else {
            let p = find_prev_index(nodes, node.prev, i);
            proof {
                lemma_find_prev_range(nodes@, node.prev, i as int);
            }
            parents.push(p);
            match p {
                Some(j) => {
                    let hj = heights[j];
                    match hj {
                        Some(h) => {
                            proof {
                                lemma_height_le_index(nodes@, j as int);
                            }
                            heights.push(Some(h + 1));
                        },
                        None => heights.push(None),
                    }
                },
                None => heights.push(None),
            }
        }
        i = i + 1;
    }
    (parents, heights)
}

pub proof fn lemma_best_tip_range(nodes: Seq<HeaderNode>, n: int)
    ensures
        best_tip(nodes, n) matches Some(t) ==> 0 <= t < n && height_of(nodes, t) is Some,
    decreases n,
{
    if n > 0 {
        lemma_best_tip_range(nodes, n - 1);
    }
}

/// Finds the tip of the canonical chain from the node heights.
fn find_best_tip(nodes: &Vec<HeaderNode>, heights: &Vec<Option<usize>>) -> (r: Option<usize>)
    requires
        heights@.len() == nodes@.len(),
        forall|k: int| 0 <= k < nodes@.len() ==> opt_nat(#[trigger] heights@[k]) == height_of(nodes@, k),
    ensures
        opt_int(r) == best_tip(nodes@, nodes@.len() as int),
{
    let mut best: Option<usize> = None;
    let mut best_h: usize = 0;
    let mut i: usize = 0;
    while i < heights.len()
        invariant
            i <= heights@.len() == nodes@.len(),
            forall|k: int| 0 <= k < nodes@.len() ==> opt_nat(#[trigger] heights@[k]) == height_of(nodes@, k),
            opt_int(best) == best_tip(nodes@, i as int),
            best matches Some(t) ==> best_h == hval(nodes@, t as int),
        decreases heights@.len() - i,
    {
        proof {
            lemma_best_tip_range(nodes@, i as int);
        }
        match heights[i] {
            Some(h) => {
                if best.is_none() || h > best_h {
                    best = Some(i);
                    best_h = h;
                }
            },
            None => {},
        }
        i = i + 1;
    }
    best
}

pub proof fn lemma_chain_to_len(nodes: Seq<HeaderNode>, i: int)
    requires
        height_of(nodes, i) is Some,
    ensures
        chain_to(nodes, i).len() == height_of(nodes, i)->Some_0 + 1,
        chain_to(nodes, i).last() == i,
    decreases i,
{
    if let Some(j) = parent_of(nodes, i) {
        lemma_find_prev_range(nodes, nodes[i].prev, i);
        lemma_chain_to_len(nodes, j);
    }
}

/// Computes the canonical chain of a header scan: node indices from a
/// genesis block up to the highest tip, the earliest scanned among equals.
pub fn canonical_chain(nodes: &Vec<HeaderNode>) -> (r: Vec<usize>)
    ensures
        idx_views(r@) == canonical(nodes@),
{
    let (parents, heights) = link_headers(nodes);
    let tip = find_best_tip(nodes, &heights);
    let t = match tip {
        Some(t) => t,
        None => return Vec::new(),
    };
    proof {
        lemma_best_tip_range(nodes@, nodes@.len() as int);
    }
    let h = match heights[t] {
        Some(h) => h,
        None => return Vec::new(),
    };
    let ghost c = chain_to(nodes@, t as int);
    proof {
        lemma_chain_to_len(nodes@, t as int);
        lemma_height_le_index(nodes@, t as int);
        assert(c.subrange(0, h + 1) =~= c);
    }
    let _n = nodes.len();
    assert(h < usize::MAX);
    let mut r: Vec<usize> = Vec::new();
    let mut m: usize = 0;
    while m <= h
        invariant
            m <= h + 1,
            h < usize::MAX,
            r@.len() == m,
        decreases h + 1 - m,
    {
        r.push(0);
        m = m + 1;
    }
    let mut cur = t;
    let mut k = h;
    while k > 0
        invariant
            k <= h,
            cur < nodes@.len(),
            r@.len() == h + 1,
            height_of(nodes@, cur as int) == Some(k as nat),
            chain_to(nodes@, cur as int) == c.subrange(0, k + 1),
            c.len() == h + 1,
            parents@.len() == nodes@.len(),
            forall|q: int| 0 <= q < nodes@.len() ==> opt_int(#[trigger] parents@[q]) == parent_of(nodes@, q),
            forall|q: int| k < q <= h ==> r@[q] as int == c[q],
        decreases k,
    {
        proof {
            lemma_chain_to_len(nodes@, cur as int);
            lemma_find_prev_range(nodes@, nodes@[cur as int].prev, cur as int);
        }
        r.set(k, cur);
        let p = parents[cur];
        let j = match p {
            Some(j) => j,
            None => {
                assert(false);
                cur
            },
        };
        proof {
            let cj = chain_to(nodes@, j as int);
            assert(chain_to(nodes@, cur as int) == cj.push(cur as int));
            assert(cj =~= c.subrange(0, k as int));
        }
        cur = j;
        k = k - 1;
    }
    proof {
        lemma_chain_to_len(nodes@, cur as int);
    }
    r.set(0, cur);
    proof {
        assert(idx_views(r@) =~= c);
    }
    r
}


/// Along the chain to a node with a height, the entry at position `k` has
/// height `k`, starts at a genesis block, and each entry's previous hash is
/// the hash of the entry before it.
pub proof fn lemma_chain_to_linked(nodes: Seq<HeaderNode>, i: int)
    requires
        height_of(nodes, i) is Some,
    ensures
        chain_to(nodes, i).len() > 0,
        nodes[chain_to(nodes, i)[0]].prev == zero_hash(),
        forall|k: int|
            0 <= k < chain_to(nodes, i).len() ==> 0 <= #[trigger] chain_to(nodes, i)[k] < nodes.len()
                && height_of(nodes, chain_to(nodes, i)[k]) == Some(k as nat),
        forall|k: int|
            0 < k < chain_to(nodes, i).len() ==> nodes[#[trigger] chain_to(nodes, i)[k]].prev
                == nodes[chain_to(nodes, i)[k - 1]].hash,
    decreases i,
{
    lemma_chain_to_len(nodes, i);
    if let Some(j) = parent_of(nodes, i) {
        lemma_find_prev_range(nodes, nodes[i].prev, i);
        lemma_chain_to_linked(nodes, j);
        lemma_chain_to_len(nodes, j);
    }
}

/// The canonical chain is gap-free: its entry at position `k` is a node of
/// height `k`, the first is a genesis block, and each links to the one before.
pub proof fn lemma_canonical_linked(nodes: Seq<HeaderNode>)
    ensures
        canonical(nodes).len() > 0 ==> nodes[canonical(nodes)[0]].prev == zero_hash(),
        forall|k: int|
            0 <= k < canonical(nodes).len() ==> 0 <= #[trigger] canonical(nodes)[k] < nodes.len()
                && height_of(nodes, canonical(nodes)[k]) == Some(k as nat),
        forall|k: int|
            0 < k < canonical(nodes).len() ==> nodes[#[trigger] canonical(nodes)[k]].prev
                == nodes[canonical(nodes)[k - 1]].hash,
{
    lemma_best_tip_range(nodes, nodes.len() as int);
    if let Some(t) = best_tip(nodes, nodes.len() as int) {
        lemma_chain_to_linked(nodes, t);
    }
}

/// A scan of one unbroken chain: the first header is a genesis block and each
/// later header names the one before it, whose hash is not zero.
pub open spec fn is_linear_scan(nodes: Seq<HeaderNode>) -> bool {
    &&& nodes.len() > 0 ==> nodes[0].prev == zero_hash()
    &&& forall|k: int|
        0 < k < nodes.len() ==> (#[trigger] nodes[k]).prev == nodes[k - 1].hash
            && nodes[k - 1].hash != zero_hash()
}

proof fn lemma_linear_heights(nodes: Seq<HeaderNode>, i: int)
    requires
        is_linear_scan(nodes),
        0 <= i < nodes.len(),
    ensures
        height_of(nodes, i) == Some(i as nat),
        chain_to(nodes, i) == Seq::new((i + 1) as nat, |k: int| k),
    decreases i,
{
    if i > 0 {
        assert(nodes[i].prev == nodes[i - 1].hash);
        assert(find_prev(nodes, nodes[i].prev, i) == Some(i - 1));
        lemma_linear_heights(nodes, i - 1);
        assert(Seq::new(i as nat, |k: int| k).push(i) =~= Seq::new((i + 1) as nat, |k: int| k));
    } else {
        assert(seq![0int] =~= Seq::new(1, |k: int| k));
    }
}

proof fn lemma_linear_best_tip(nodes: Seq<HeaderNode>, n: int)
    requires
        is_linear_scan(nodes),
        0 < n <= nodes.len(),
    ensures
        best_tip(nodes, n) == Some(n - 1),
    decreases n,
{
    lemma_linear_heights(nodes, n - 1);
    if n > 1 {
        lemma_linear_best_tip(nodes, n - 1);
        lemma_linear_heights(nodes, n - 2);
    }
}

/// A scan of a single chain of N headers yields all N of them as the
/// canonical chain, in scan order, at heights 0 to N - 1.
pub proof fn lemma_linear_scan_canonical(nodes: Seq<HeaderNode>)
    requires
        is_linear_scan(nodes),
    ensures
        canonical(nodes) == Seq::new(nodes.len(), |k: int| k),
        forall|k: int| 0 <= k < nodes.len() ==> height_of(nodes, k) == Some(k as nat),
{
    if nodes.len() > 0 {
        lemma_linear_best_tip(nodes, nodes.len() as int);
        lemma_linear_heights(nodes, nodes.len() - 1);
    } else {
        assert(canonical(nodes) =~= Seq::new(nodes.len(), |k: int| k));
    }
    assert forall|k: int| 0 <= k < nodes.len() implies height_of(nodes, k) == Some(k as nat) by {
        lemma_linear_heights(nodes, k);
    }
}

proof fn lemma_highest_is_best(nodes: Seq<HeaderNode>, a: int, n: int)
    requires
        0 <= a < nodes.len(),
        height_of(nodes, a) is Some,
        forall|k: int| 0 <= k < nodes.len() && k != a ==> hval(nodes, k) < hval(nodes, a),
        0 <= n <= nodes.len(),
    ensures
        n > a ==> best_tip(nodes, n) == Some(a),
        n <= a ==> (best_tip(nodes, n) matches Some(t) ==> hval(nodes, t) < hval(nodes, a)),
    decreases n,
{
    lemma_best_tip_range(nodes, n);
    if n > 0 {
        lemma_highest_is_best(nodes, a, n - 1);
        lemma_best_tip_range(nodes, n - 1);
    }
}

/// When one fork's tip `a` stands higher than every other node, the canonical
/// chain is exactly the chain ending at `a`; nodes of the shorter branch, off
/// that chain, are left out.
pub proof fn lemma_longer_branch_wins(nodes: Seq<HeaderNode>, a: int)
    requires
        0 <= a < nodes.len(),
        height_of(nodes, a) is Some,
        forall|k: int| 0 <= k < nodes.len() && k != a ==> hval(nodes, k) < hval(nodes, a),
    ensures
        canonical(nodes) == chain_to(nodes, a),
        forall|b: int| !chain_to(nodes, a).contains(b) ==> !canonical(nodes).contains(b),
{
    lemma_highest_is_best(nodes, a, nodes.len() as int);
}

} // verus!
