//! The persisted record of the canonical chain and of scan progress, with its
//! byte format.

use vstd::prelude::*;
use crate::codec::{le16, le32, le64, read_u64_le};
use crate::chain::{Hash256, BlockLocation, HeaderNode, zero_hash, is_zero_hash};

verus! {

/// Errors of the chain record.
#[derive(Debug, Clone, Copy, PartialEq, Eq, Structural)]
pub enum StorageError {
    /// A new entry does not link to the one before it.
    CorruptChain,
    /// Persisted bytes do not hold a valid record.
    CorruptState,
}

/// Whether `e` is a contiguous chain from a genesis block: the first entry's
/// previous hash is zero and each later entry names the hash of the one before.
pub open spec fn linked(e: Seq<HeaderNode>) -> bool {
    &&& e.len() > 0 ==> e[0].prev == zero_hash()
    &&& forall|k: int| 0 < k < e.len() ==> (#[trigger] e[k]).prev == e[k - 1].hash
}

/// The canonical chain by height (entry `k` is the block at height `k`), the
/// number of heights already delivered, and the latest archive file scanned.
pub struct ChainStorage {
    pub entries: Vec<HeaderNode>,
    pub processed: u64,
    pub latest_blk_idx: u64,
}

/// What a chain record holds.
pub struct StorageView {
    pub entries: Seq<HeaderNode>,
    pub processed: nat,
    pub latest_blk_idx: nat,
}

pub open spec fn view_wf(v: StorageView) -> bool {
    &&& linked(v.entries)
    &&& v.processed <= v.entries.len()
}

/// Length of the longest common prefix of two chains.
pub open spec fn common_len(a: Seq<HeaderNode>, b: Seq<HeaderNode>) -> nat
    decreases a.len(),
{
    if a.len() == 0 || b.len() == 0 || a[0] != b[0] {
        0
    } else {
        1 + common_len(a.drop_first(), b.drop_first())
    }
}

proof fn lemma_common_len(a: Seq<HeaderNode>, b: Seq<HeaderNode>, f: int)
    requires
        0 <= f <= a.len(),
        f <= b.len(),
        a.subrange(0, f) == b.subrange(0, f),
        f < a.len() && f < b.len() ==> a[f] != b[f],
    ensures
        common_len(a, b) == f,
    decreases f,
{
    if f > 0 {
        assert(a[0] == a.subrange(0, f)[0]);
        assert(b[0] == b.subrange(0, f)[0]);
        assert(a.drop_first().subrange(0, f - 1) =~= a.subrange(0, f).drop_first());
        assert(b.drop_first().subrange(0, f - 1) =~= b.subrange(0, f).drop_first());
        lemma_common_len(a.drop_first(), b.drop_first(), f - 1);
    }
}

/// The record after a header pass found `chain`: the chain replaces the
/// entries, and delivery progress is kept up to the fork point.
pub open spec fn scan_update(old: StorageView, chain: Seq<HeaderNode>) -> StorageView {
    let f = common_len(old.entries, chain);
    StorageView {
        entries: chain,
        processed: if old.processed <= f { old.processed } else { f },
        latest_blk_idx: old.latest_blk_idx,
    }
}

/// The entries still to deliver, in height order.
pub open spec fn pending(v: StorageView) -> Seq<HeaderNode> {
    v.entries.subrange(v.processed as int, v.entries.len() as int)
}

pub open spec fn empty_view() -> StorageView {
    StorageView { entries: Seq::empty(), processed: 0, latest_blk_idx: 0 }
}

impl ChainStorage {
    pub open spec fn view(&self) -> StorageView {
        StorageView {
            entries: self.entries@,
            processed: self.processed as nat,
            latest_blk_idx: self.latest_blk_idx as nat,
        }
    }

    pub open spec fn wf(&self) -> bool {
        view_wf(self.view())
    }

    /// An empty record: no entries, nothing delivered, no file scanned.
    pub fn new() -> (r: ChainStorage)
        ensures
            r.entries@.len() == 0,
            r.processed == 0,
            r.latest_blk_idx == 0,
            r.wf(),
    {
        ChainStorage { entries: Vec::new(), processed: 0, latest_blk_idx: 0 }
    }

    /// Height of the next block to deliver.
    pub fn get_cur_height(&self) -> (r: u64)
        ensures
            r == self.processed,
    {
        self.processed
    }

    /// Number of known blocks not yet delivered.
    pub fn remaining(&self) -> (r: u64)
        requires
            self.wf(),
        ensures
            r == self.entries@.len() - self.processed,
    {
        (self.entries.len() as u64) - self.processed
    }

    /// Records the archive file index up to which headers were scanned.
    pub fn set_latest_blk_idx(&mut self, idx: u64)
        ensures
            final(self).entries@ == old(self).entries@,
            final(self).processed == old(self).processed,
            final(self).latest_blk_idx == idx,
    {
        self.latest_blk_idx = idx;
    }

    /// Records that the block at the current height has been delivered.
    pub fn mark_processed(&mut self)
        requires
            old(self).wf(),
            old(self).processed < old(self).entries@.len(),
        ensures
            final(self).wf(),
            final(self).entries@ == old(self).entries@,
            final(self).processed == old(self).processed + 1,
            final(self).latest_blk_idx == old(self).latest_blk_idx,
    {
        let _n = self.entries.len();
        self.processed = self.processed + 1;
    }

    /// Number of leading entries that `chain` shares with this record.
    pub fn fork_point(&self, chain: &Vec<HeaderNode>) -> (r: usize)
        ensures
            r <= self.entries@.len(),
            r <= chain@.len(),
            self.entries@.subrange(0, r as int) == chain@.subrange(0, r as int),
            r < self.entries@.len() && r < chain@.len() ==> self.entries@[r as int] != chain@[r as int],
    {
        let mut i: usize = 0;
        while i < self.entries.len() && i < chain.len()
            invariant
                i <= self.entries@.len(),
                i <= chain@.len(),
                self.entries@.subrange(0, i as int) == chain@.subrange(0, i as int),
            decreases chain@.len() - i,
        {
            if self.entries[i] != chain[i] {
                return i;
            }
            i = i + 1;
            assert(self.entries@.subrange(0, i as int) =~= chain@.subrange(0, i as int));
        }
        i
    }

    /// Cuts the record back to its first `n` entries; delivery progress past
    /// the cut is forgotten.
    pub fn truncate(&mut self, n: usize)
        requires
            old(self).wf(),
            n <= old(self).entries@.len(),
        ensures
            final(self).wf(),
            final(self).entries@ == old(self).entries@.subrange(0, n as int),
            final(self).processed == if old(self).processed <= n as u64 {
                old(self).processed
            } else {
                n as u64
            },
            final(self).latest_blk_idx == old(self).latest_blk_idx,
    {
        self.entries.truncate(n);
        if self.processed > n as u64 {
            self.processed = n as u64;
        }
    }

    /// Appends entries after checking that the record stays contiguous; the
    /// record is left unchanged when it would not.
    pub fn extend(&mut self, more: &Vec<HeaderNode>) -> (r: Result<(), StorageError>)
        requires
            old(self).wf(),
        ensures
            r is Ok <==> linked(old(self).entries@ + more@),
            r is Ok ==> final(self).entries@ == old(self).entries@ + more@,
            r is Err ==> final(self).entries@ == old(self).entries@ && r == Err::<(), StorageError>(
                StorageError::CorruptChain,
            ),
            final(self).processed == old(self).processed,
            final(self).latest_blk_idx == old(self).latest_blk_idx,
            final(self).wf(),
    {
        let ghost all = self.entries@ + more@;
        let base = self.entries.len();
        if !joins(&self.entries, more) {
            return Err(StorageError::CorruptChain);
        }
        assert(linked(all));
        let mut j: usize = 0;
        while j < more.len()
            invariant
                j <= more@.len(),
                self.entries@ == all.subrange(0, base + j),
                all == old(self).entries@ + more@,
                base == old(self).entries@.len(),
                self.processed == old(self).processed,
                self.latest_blk_idx == old(self).latest_blk_idx,
            decreases more@.len() - j,
        {
            self.entries.push(more[j]);
            j = j + 1;
            assert(self.entries@ =~= all.subrange(0, base + j));
        }
        assert(self.entries@ =~= all);
        Ok(())
    }

    /// Makes `chain` the record's canonical chain: entries past the fork point
    /// are dropped (a reorganization) and the new ones appended. Returns the
    /// fork point.
    pub fn replace_chain(&mut self, chain: &Vec<HeaderNode>) -> (r: Result<usize, StorageError>)
        requires
            old(self).wf(),
        ensures
            r is Ok <==> linked(chain@),
            r matches Ok(f) ==> {
                &&& final(self).entries@ == chain@
                &&& f <= old(self).entries@.len()
                &&& old(self).entries@.subrange(0, f as int) == chain@.subrange(0, f as int)
                &&& final(self).processed == if old(self).processed <= f as u64 {
                    old(self).processed
                } else {
                    f as u64
                }
            },
            r is Ok ==> final(self).view() == scan_update(old(self).view(), chain@),
            r is Err ==> final(self).entries@ == old(self).entries@ && final(self).processed
                == old(self).processed,
            final(self).latest_blk_idx == old(self).latest_blk_idx,
            final(self).wf(),
    {
        let f = self.fork_point(chain);
        proof {
            lemma_common_len(self.entries@, chain@, f as int);
        }
        let mut more: Vec<HeaderNode> = Vec::new();
        let mut i = f;
        while i < chain.len()
            invariant
                f <= i <= chain@.len(),
                more@ == chain@.subrange(f as int, i as int),
            decreases chain@.len() - i,
        {
            more.push(chain[i]);
            i = i + 1;
            assert(more@ =~= chain@.subrange(f as int, i as int));
        }
        let ghost prefix = self.entries@.subrange(0, f as int);
        assert(prefix + more@ =~= chain@);
        if !linked_exec(chain) {
            return Err(StorageError::CorruptChain);
        }
        self.truncate(f);
        match self.extend(&more) {
            Ok(()) => Ok(f),
            Err(e) => Err(e),
        }
    }
}

/// The hash that the first entry appended to `a` must name.
pub open spec fn tip_hash(a: Seq<HeaderNode>) -> Hash256 {
    if a.len() == 0 {
        zero_hash()
    } else {
        a.last().hash
    }
}

/// Whether appending `b` to the contiguous chain `a` keeps it contiguous.
fn joins(a: &Vec<HeaderNode>, b: &Vec<HeaderNode>) -> (r: bool)
    requires
        linked(a@),
    ensures
        r == linked(a@ + b@),
{
    let ghost all = a@ + b@;
    let mut i: usize = 0;
    while i < b.len()
        invariant
            i <= b@.len(),
            all == a@ + b@,
            forall|k: int| 0 < k < i ==> (#[trigger] b@[k]).prev == b@[k - 1].hash,
            i > 0 ==> b@[0].prev == tip_hash(a@),
        decreases b@.len() - i,
    {
        let want = if i > 0 {
            b[i - 1].hash
        } else if a.len() > 0 {
            a[a.len() - 1].hash
        } else {
            Hash256 { w0: 0, w1: 0, w2: 0, w3: 0 }
        };
        if b[i].prev != want {
            proof {
                let q = a@.len() + i;
                assert(all[q] == b@[i as int]);
                if q > 0 {
                    assert(all[q].prev != all[q - 1].hash);
                } else {
                    assert(all[0].prev != zero_hash());
                }
            }
            return false;
        }
        i = i + 1;
    }
    assert forall|k: int| 0 < k < all.len() implies (#[trigger] all[k]).prev == all[k - 1].hash by {
        if k > a@.len() {
            assert(all[k] == b@[k - a@.len()]);
            assert(all[k - 1] == b@[k - 1 - a@.len()]);
        } else if k == a@.len() {
            assert(all[k] == b@[0]);
        }
    }
    true
}

impl Default for ChainStorage {
    fn default() -> (r: ChainStorage)
        ensures
            r.entries@.len() == 0,
            r.processed == 0,
            r.latest_blk_idx == 0,
    {
        ChainStorage::new()
    }
}

/// Whether `e` is contiguous from a genesis block.
pub fn linked_exec(e: &Vec<HeaderNode>) -> (r: bool)
    ensures
        r == linked(e@),
{
    if e.len() == 0 {
        return true;
    }
    if !is_zero_hash(e[0].prev) {
        return false;
    }
    let mut i: usize = 1;
    while i < e.len()
        invariant
            1 <= i <= e@.len(),
            e@[0].prev == zero_hash(),
            forall|k: int| 0 < k < i ==> (#[trigger] e@[k]).prev == e@[k - 1].hash,
        decreases e@.len() - i,
    {
        if e[i].prev != e[i - 1].hash {
            return false;
        }
        i = i + 1;
    }
    true
}


/// The eight little-endian bytes of `w`.
pub open spec fn u64_bytes(w: u64) -> Seq<u8> {
    let lo = w as nat % 4294967296;
    let hi = w as nat / 4294967296;
    seq![
        (lo % 65536 % 256) as u8,
        (lo % 65536 / 256) as u8,
        (lo / 65536 % 256) as u8,
        (lo / 65536 / 256) as u8,
        (hi % 65536 % 256) as u8,
        (hi % 65536 / 256) as u8,
        (hi / 65536 % 256) as u8,
        (hi / 65536 / 256) as u8,
    ]
}

/// The words in turn, eight bytes each.
pub open spec fn words_bytes(ws: Seq<u64>) -> Seq<u8>
    decreases ws.len(),
{
    if ws.len() == 0 {
        Seq::empty()
    } else {
        words_bytes(ws.drop_last()) + u64_bytes(ws.last())
    }
}

/// The eleven words of an entry: its hash, its previous hash, then file
/// index, offset and length.
pub open spec fn node_words(e: HeaderNode) -> Seq<u64> {
    seq![
        e.hash.w0, e.hash.w1, e.hash.w2, e.hash.w3,
        e.prev.w0, e.prev.w1, e.prev.w2, e.prev.w3,
        e.loc.file_index, e.loc.offset, e.loc.len,
    ]
}

pub open spec fn entries_words(es: Seq<HeaderNode>) -> Seq<u64>
    decreases es.len(),
{
    if es.len() == 0 {
        Seq::empty()
    } else {
        entries_words(es.drop_last()) + node_words(es.last())
    }
}

/// The persisted form of a record: delivered count, latest archive file and
/// entry count, then each entry's words, all as little-endian 64-bit words.
pub open spec fn encode_spec(v: StorageView) -> Seq<u8> {
    words_bytes(seq![v.processed as u64, v.latest_blk_idx as u64, v.entries.len() as u64]
        + entries_words(v.entries))
}

/// Word `i` of a byte string.
#[verifier::opaque]
pub open spec fn word_at(b: Seq<u8>, i: int) -> u64 {
    le64(b, 8 * i) as u64
}

/// Entry `k` of a persisted record.
pub open spec fn node_at(b: Seq<u8>, k: int) -> HeaderNode {
    let _len = b.len();
    let base = 3 + 11 * k;
    HeaderNode {
        hash: Hash256 {
            w0: word_at(b, base),
            w1: word_at(b, base + 1),
            w2: word_at(b, base + 2),
            w3: word_at(b, base + 3),
        },
        prev: Hash256 {
            w0: word_at(b, base + 4),
            w1: word_at(b, base + 5),
            w2: word_at(b, base + 6),
            w3: word_at(b, base + 7),
        },
        loc: BlockLocation {
            file_index: word_at(b, base + 8),
            offset: word_at(b, base + 9),
            len: word_at(b, base + 10),
        },
    }
}

/// The record that persisted bytes hold, if they hold a valid one.
pub open spec fn decode_spec(b: Seq<u8>) -> Option<StorageView> {
    if b.len() < 24 || b.len() % 8 != 0 {
        None
    } else {
        let n = word_at(b, 2) as nat;
        if b.len() / 8 != 3 + 11 * n {
            None
        } else {
            let v = StorageView {
                entries: Seq::new(n, |k: int| node_at(b, k)),
                processed: word_at(b, 0) as nat,
                latest_blk_idx: word_at(b, 1) as nat,
            };
            if view_wf(v) { Some(v) } else { None }
        }
    }
}

proof fn lemma_u64_bytes(w: u64)
    ensures
        u64_bytes(w).len() == 8,
        le64(u64_bytes(w), 0) == w as nat,
{
    let s = u64_bytes(w);
    let lo = w as nat % 4294967296;
    let hi = w as nat / 4294967296;
    assert(lo % 65536 == (lo % 65536 % 256) + 256 * (lo % 65536 / 256));
    assert(lo / 65536 == (lo / 65536 % 256) + 256 * (lo / 65536 / 256));
    assert(lo / 65536 / 256 < 256);
    assert(hi % 65536 == (hi % 65536 % 256) + 256 * (hi % 65536 / 256));
    assert(hi / 65536 == (hi / 65536 % 256) + 256 * (hi / 65536 / 256));
    assert(hi / 65536 / 256 < 256);
    assert(le16(s, 0) == lo % 65536);
    assert(le16(s, 2) == lo / 65536);
    assert(le16(s, 4) == hi % 65536);
    assert(le16(s, 6) == hi / 65536);
    assert(lo == lo % 65536 + 65536 * (lo / 65536));
    assert(hi == hi % 65536 + 65536 * (hi / 65536));
    assert(le32(s, 0) == lo);
    assert(le32(s, 4) == hi);
}

proof fn lemma_words_bytes(ws: Seq<u64>)
    ensures
        words_bytes(ws).len() == 8 * ws.len(),
        forall|i: int| 0 <= i < ws.len() ==> #[trigger] word_at(words_bytes(ws), i) == ws[i],
    decreases ws.len(),
{
    reveal(word_at);
    if ws.len() > 0 {
        let pre = ws.drop_last();
        lemma_words_bytes(pre);
        lemma_u64_bytes(ws.last());
        let b = words_bytes(ws);
        let a = words_bytes(pre);
        let c = u64_bytes(ws.last());
        assert forall|i: int| 0 <= i < ws.len() implies #[trigger] word_at(words_bytes(ws), i) == ws[i] by {
            if i < pre.len() {
                assert(word_at(a, i) == pre[i]);
                assert forall|j: int| 0 <= j < 8 implies #[trigger] b[8 * i + j] == a[8 * i + j] by {}
            } else {
                assert forall|j: int| 0 <= j < 8 implies #[trigger] b[8 * i + j] == c[j] by {}
            }
        }
    }
}

proof fn lemma_entries_words(es: Seq<HeaderNode>)
    ensures
        entries_words(es).len() == 11 * es.len(),
        forall|k: int, j: int|
            0 <= k < es.len() && 0 <= j < 11 ==> #[trigger] entries_words(es)[11 * k + j]
                == #[trigger] node_words(es[k])[j],
    decreases es.len(),
{
    if es.len() > 0 {
        let pre = es.drop_last();
        lemma_entries_words(pre);
        assert forall|k: int, j: int|
            0 <= k < es.len() && 0 <= j < 11 implies #[trigger] entries_words(es)[11 * k + j]
                == #[trigger] node_words(es[k])[j] by {
            if k < pre.len() {
                assert(node_words(pre[k])[j] == entries_words(pre)[11 * k + j]);
            }
        }
    }
}

/// Saving a well-formed record and loading the bytes gives the same entries,
/// delivered count and latest archive file back.
pub proof fn lemma_save_load_round_trip(v: StorageView)
    requires
        view_wf(v),
        v.entries.len() <= 0x1000_0000_0000_0000,
        v.latest_blk_idx <= u64::MAX,
    ensures
        decode_spec(encode_spec(v)) == Some(v),
{
    let n = v.entries.len();
    let ws = seq![v.processed as u64, v.latest_blk_idx as u64, n as u64] + entries_words(v.entries);
    let b = encode_spec(v);
    lemma_entries_words(v.entries);
    lemma_words_bytes(ws);
    assert forall|k: int, j: int|
        0 <= k < n && 0 <= j < 11 implies #[trigger] ws[3 + 11 * k + j] == #[trigger] node_words(
        v.entries[k],
    )[j] by {
        assert(ws[3 + 11 * k + j] == entries_words(v.entries)[11 * k + j]);
    }
    assert(ws.len() == 3 + 11 * n);
    assert(b.len() == 8 * (3 + 11 * n));
    assert(b.len() / 8 == 3 + 11 * n);
    assert(word_at(b, 0) == ws[0]);
    assert(word_at(b, 1) == ws[1]);
    assert(word_at(b, 2) == ws[2]);
    lemma_nodes_decoded(v.entries, b, ws);
}

proof fn lemma_nodes_decoded(es: Seq<HeaderNode>, b: Seq<u8>, ws: Seq<u64>)
    requires
        ws.len() == 3 + 11 * es.len(),
        forall|i: int| 0 <= i < ws.len() ==> #[trigger] word_at(b, i) == ws[i],
        forall|k: int, j: int|
            0 <= k < es.len() && 0 <= j < 11 ==> #[trigger] ws[3 + 11 * k + j]
                == #[trigger] node_words(es[k])[j],
    ensures
        Seq::new(es.len(), |k: int| node_at(b, k)) == es,
{
    let d = Seq::new(es.len(), |k: int| node_at(b, k));
    assert forall|k: int| 0 <= k < es.len() implies d[k] == es[k] by {
        let base = 3 + 11 * k;
        let nw = node_words(es[k]);
        assert forall|j: int| 0 <= j < 11 implies #[trigger] word_at(b, base + j) == nw[j] by {
            assert(word_at(b, base + j) == ws[base + j]);
            assert(ws[3 + 11 * k + j] == nw[j]);
        }
        assert(word_at(b, base + 0) == nw[0]);
        assert(word_at(b, base + 1) == nw[1]);
        assert(word_at(b, base + 2) == nw[2]);
        assert(word_at(b, base + 3) == nw[3]);
        assert(word_at(b, base + 4) == nw[4]);
        assert(word_at(b, base + 5) == nw[5]);
        assert(word_at(b, base + 6) == nw[6]);
        assert(word_at(b, base + 7) == nw[7]);
        assert(word_at(b, base + 8) == nw[8]);
        assert(word_at(b, base + 9) == nw[9]);
        assert(word_at(b, base + 10) == nw[10]);
    }
    assert(d =~= es);
}



/// Appends the eight little-endian bytes of `w`.
fn push_u64(out: &mut Vec<u8>, w: u64)
    ensures
        final(out)@ == old(out)@ + u64_bytes(w),
{
    let lo = w % 4294967296;
    let hi = w / 4294967296;
    out.push((lo % 65536 % 256) as u8);
    out.push((lo % 65536 / 256) as u8);
    out.push((lo / 65536 % 256) as u8);
    out.push((lo / 65536 / 256) as u8);
    out.push((hi % 65536 % 256) as u8);
    out.push((hi % 65536 / 256) as u8);
    out.push((hi / 65536 % 256) as u8);
    out.push((hi / 65536 / 256) as u8);
    assert(final(out)@ =~= old(out)@ + u64_bytes(w));
}

/// Appends the words of an entry.
fn push_node_words(ws: &mut Vec<u64>, e: HeaderNode)
    ensures
        final(ws)@ == old(ws)@ + node_words(e),
{
    ws.push(e.hash.w0);
    ws.push(e.hash.w1);
    ws.push(e.hash.w2);
    ws.push(e.hash.w3);
    ws.push(e.prev.w0);
    ws.push(e.prev.w1);
    ws.push(e.prev.w2);
    ws.push(e.prev.w3);
    ws.push(e.loc.file_index);
    ws.push(e.loc.offset);
    ws.push(e.loc.len);
    assert(final(ws)@ =~= old(ws)@ + node_words(e));
}

/// Reads word `i` of `b`.
fn read_word(b: &[u8], i: usize) -> (r: u64)
    requires
        8 * i + 8 <= b@.len(),
    ensures
        r == word_at(b@, i as int),
{
    reveal(word_at);
    let _len = b.len();
    read_u64_le(b, 8 * i)
}

/// Reads entry `k` of a persisted record.
fn read_node(b: &[u8], k: usize) -> (r: HeaderNode)
    requires
        8 * (3 + 11 * k) + 88 <= b@.len(),
    ensures
        r == node_at(b@, k as int),
{
    let _len = b.len();
    let base = 3 + 11 * k;
    HeaderNode {
        hash: Hash256 {
            w0: read_word(b, base),
            w1: read_word(b, base + 1),
            w2: read_word(b, base + 2),
            w3: read_word(b, base + 3),
        },
        prev: Hash256 {
            w0: read_word(b, base + 4),
            w1: read_word(b, base + 5),
            w2: read_word(b, base + 6),
            w3: read_word(b, base + 7),
        },
        loc: BlockLocation {
            file_index: read_word(b, base + 8),
            offset: read_word(b, base + 9),
            len: read_word(b, base + 10),
        },
    }
}

impl ChainStorage {
    /// The record in its persisted form.
    pub fn to_bytes(&self) -> (r: Vec<u8>)
        requires
            self.entries@.len() <= 0x1000_0000_0000_0000,
        ensures
            r@ == encode_spec(self.view()),
    {
        let mut ws: Vec<u64> = Vec::new();
        ws.push(self.processed);
        ws.push(self.latest_blk_idx);
        ws.push(self.entries.len() as u64);
        let ghost head = ws@;
        let mut k: usize = 0;
        while k < self.entries.len()
            invariant
                k <= self.entries@.len(),
                ws@ == head + entries_words(self.entries@.subrange(0, k as int)),
            decreases self.entries@.len() - k,
        {
            push_node_words(&mut ws, self.entries[k]);
            k = k + 1;
            assert(self.entries@.subrange(0, k as int).drop_last() =~= self.entries@.subrange(
                0,
                k - 1,
            ));
            assert(ws@ =~= head + entries_words(self.entries@.subrange(0, k as int)));
        }
        assert(self.entries@.subrange(0, k as int) =~= self.entries@);
        assert(ws@ =~= seq![
            self.processed,
            self.latest_blk_idx,
            self.entries@.len() as u64,
        ] + entries_words(self.entries@));
        let mut out: Vec<u8> = Vec::new();
        let mut i: usize = 0;
        while i < ws.len()
            invariant
                i <= ws@.len(),
                out@ == words_bytes(ws@.subrange(0, i as int)),
            decreases ws@.len() - i,
        {
            push_u64(&mut out, ws[i]);
            i = i + 1;
            assert(ws@.subrange(0, i as int).drop_last() =~= ws@.subrange(0, i - 1));
        }
        assert(ws@.subrange(0, i as int) =~= ws@);
        out
    }

    /// Reads a record from its persisted form.
    pub fn from_bytes(b: &[u8]) -> (r: Result<ChainStorage, StorageError>)
        ensures
            match decode_spec(b@) {
                Some(v) => r matches Ok(s) && s.view() == v,
                None => r == Err::<ChainStorage, StorageError>(StorageError::CorruptState),
            },
    {
        let len = b.len();
        if len < 24 || len % 8 != 0 {
            return Err(StorageError::CorruptState);
        }
        let processed = read_word(b, 0);
        let latest = read_word(b, 1);
        let n = read_word(b, 2);
        let m = len / 8;
        let rest = m - 3;
        if rest % 11 != 0 || (rest / 11) as u64 != n {
            return Err(StorageError::CorruptState);
        }
        let count = rest / 11;
        assert(rest == 11 * count);
        let mut entries: Vec<HeaderNode> = Vec::new();
        let mut k: usize = 0;
        while k < count
            invariant
                len == b@.len(),
                m == len / 8,
                rest == m - 3,
                rest == 11 * count,
                k <= count,
                entries@ == Seq::new(k as nat, |q: int| node_at(b@, q)),
            decreases count - k,
        {
            let e = read_node(b, k);
            entries.push(e);
            k = k + 1;
            assert(entries@ =~= Seq::new(k as nat, |q: int| node_at(b@, q)));
        }
        if !linked_exec(&entries) || processed > count as u64 {
            return Err(StorageError::CorruptState);
        }
        Ok(ChainStorage { entries, processed, latest_blk_idx: latest })
    }
}

} // verus!
