//! The run: which phase comes next, and the full-data pass that decodes the
//! pending blocks in height order and hands them to a consumer.

use vstd::prelude::*;
use crate::codec::{
    Block, block_layout, decode_block, header_matches, tx_views, lemma_txs_at_bounds, compact_at, copy_range,
};
use crate::chain::{HeaderNode, hash_at, read_hash};
use crate::consumer::{Callback, CallEvent, Consumer, blocks_delivered};
use crate::merkle::{MAX_DIGEST_INPUT, dhash, merkle_root_of, txids, verify_merkle_root, block_hash};
use crate::storage::{
    ChainStorage, StorageView, view_wf, scan_update, pending, empty_view, common_len,
};
use crate::scanner::{
    canonical_nodes_spec, canonical_nodes, scan_headers, scan_nodes, file_views,
    lemma_canonical_nodes_linked,
};

verus! {

/// Whether a pass reads headers only or whole blocks.
#[derive(Debug, Clone, Copy, PartialEq, Eq, Structural)]
pub enum ParseMode {
    HeaderOnly,
    FullData,
}

/// Errors that end a run.
#[derive(Debug, Clone, Copy, PartialEq, Eq, Structural)]
pub enum EngineError {
    /// A block record is truncated or malformed.
    MalformedRecord,
    /// A block's transactions do not give its declared Merkle root.
    VerificationMismatch,
    /// The bytes at a recorded location are not the recorded block.
    CorruptChain,
    /// The consumer reported a failure.
    BackendFailure,
}

/// What the run does next.
#[derive(Debug, Clone, Copy, PartialEq, Eq, Structural)]
pub enum Action {
    /// Scan all archive files for headers and update the chain record.
    ScanHeaders,
    /// Deliver the blocks at heights `from` up to, not including, `to`.
    DeliverBlocks { from: u64, to: u64 },
    /// Every known block was delivered already: a clean no-op.
    NothingToDo,
    /// The run is over.
    Done,
}

/// The mode of a pass: headers first when the record is empty or a resume
/// was asked for, whole blocks otherwise.
pub open spec fn mode_for(empty: bool, resume: bool) -> ParseMode {
    if empty || resume { ParseMode::HeaderOnly } else { ParseMode::FullData }
}

pub fn choose_mode(st: &ChainStorage, resume: bool) -> (r: ParseMode)
    ensures
        r == mode_for(st.entries@.len() == 0, resume),
{
    if st.entries.len() == 0 || resume {
        ParseMode::HeaderOnly
    } else {
        ParseMode::FullData
    }
}

/// The first archive file a pass reads: all of them for a header pass, from
/// the latest scanned one for a full pass.
pub fn start_file_index(mode: ParseMode, st: &ChainStorage) -> (r: u64)
    ensures
        r == match mode {
            ParseMode::HeaderOnly => 0,
            ParseMode::FullData => st.latest_blk_idx,
        },
{
    match mode {
        ParseMode::HeaderOnly => 0,
        ParseMode::FullData => st.latest_blk_idx,
    }
}

/// The decision of the two-pass run. `iteration` counts the passes made and
/// is capped at two; `resume` holds until the first header pass was made.
pub open spec fn next_action_spec(iteration: nat, resume: bool, v: StorageView) -> Action {
    if iteration >= 2 {
        Action::Done
    } else if mode_for(v.entries.len() == 0, resume) == ParseMode::HeaderOnly {
        Action::ScanHeaders
    } else if v.processed == v.entries.len() {
        Action::NothingToDo
    } else {
        Action::DeliverBlocks { from: v.processed as u64, to: v.entries.len() as u64 }
    }
}

pub fn next_action(iteration: u32, resume: bool, st: &ChainStorage) -> (r: Action)
    requires
        st.wf(),
    ensures
        r == next_action_spec(iteration as nat, resume, st.view()),
{
    if iteration >= 2 {
        return Action::Done;
    }
    match choose_mode(st, resume) {
        ParseMode::HeaderOnly => Action::ScanHeaders,
        ParseMode::FullData => {
            if st.remaining() == 0 {
                Action::NothingToDo
            } else {
                Action::DeliverBlocks { from: st.processed, to: st.entries.len() as u64 }
            }
        },
    }
}

/// Whether the block record's transactions give the Merkle root that its
/// header declares.
pub open spec fn merkle_matches(s: Seq<u8>) -> bool {
    match block_layout(s) {
        Some((txs, _)) => merkle_root_of(txs.map_values(|t: Seq<u8>| dhash(t))) == s.subrange(
            36,
            68,
        ),
        None => false,
    }
}

/// What stops the delivery of a pending block's record, if anything:
/// malformed bytes, a Merkle mismatch when verification is on, or a hash
/// other than the recorded one.
pub open spec fn record_fault(s: Seq<u8>, verify: bool, expected: HeaderNode) -> Option<EngineError> {
    if block_layout(s) is None {
        Some(EngineError::MalformedRecord)
    } else if verify && !merkle_matches(s) {
        Some(EngineError::VerificationMismatch)
    } else if hash_at(dhash(s.subrange(0, 80)), 0) != expected.hash {
        Some(EngineError::CorruptChain)
    } else {
        None
    }
}

/// Decodes the record of a pending block and checks it: malformed bytes,
/// a Merkle mismatch when verification is on, or a hash other than the
/// recorded one end the run.
pub fn decode_pending(payload: &[u8], verify: bool, expected: &HeaderNode) -> (r: Result<
    Block,
    EngineError,
>)
    requires
        payload@.len() <= MAX_DIGEST_INPUT,
    ensures
        match record_fault(payload@, verify, *expected) {
            Some(x) => r == Err::<Block, EngineError>(x),
            None => r is Ok,
        },
        r matches Ok(b) ==> block_layout(payload@) matches Some((txs, _)) && tx_views(b.txs@)
            == txs && b.header_bytes@ == payload@.subrange(0, 80) && header_matches(
            b.header,
            payload@,
            0,
        ),
{
    let (block, _used) = match decode_block(payload) {
        Ok(x) => x,
        Err(_) => return Err(EngineError::MalformedRecord),
    };
    proof {
        let txs = block_layout(payload@)->Some_0.0;
        let q = compact_at(payload@, 80)->Some_0.1;
        lemma_txs_at_bounds(payload@, q, compact_at(payload@, 80)->Some_0.0);
        assert forall|k: int| 0 <= k < block.txs@.len() implies block.txs@[k].raw@.len()
            <= MAX_DIGEST_INPUT by {
            assert(tx_views(block.txs@)[k] == block.txs@[k].raw@);
        }
        assert(txids(block.txs@) =~= txs.map_values(|t: Seq<u8>| dhash(t)));
    }
    if verify && !verify_merkle_root(&block) {
        return Err(EngineError::VerificationMismatch);
    }
    let digest = block_hash(&block);
    let h = read_hash(digest.as_slice(), 0);
    if h != expected.hash {
        return Err(EngineError::CorruptChain);
    }
    Ok(block)
}

/// Delivering the pending blocks after a header pass over a fresh record
/// gives the canonical chain of the scan, whole and in order: splitting the
/// run into a header pass and a full pass changes nothing that is delivered.
pub proof fn lemma_phases_deliver_canonical(nodes: Seq<HeaderNode>)
    ensures
        pending(scan_update(empty_view(), canonical_nodes_spec(nodes))) == canonical_nodes_spec(
            nodes,
        ),
{
    let c = canonical_nodes_spec(nodes);
    assert(common_len(Seq::<HeaderNode>::empty(), c) == 0);
    assert(c.subrange(0, c.len() as int) =~= c);
}

/// A run resumed after an interruption, over archives that only grew (the
/// recorded chain is a prefix of the new one), keeps its delivery progress:
/// what was delivered before followed by what is pending now is the whole
/// chain, with no block twice and none missing.
pub proof fn lemma_resume_delivers_rest(old: StorageView, chain: Seq<HeaderNode>)
    requires
        view_wf(old),
        old.entries.len() <= chain.len(),
        chain.subrange(0, old.entries.len() as int) == old.entries,
    ensures
        scan_update(old, chain).processed == old.processed,
        old.entries.subrange(0, old.processed as int) + pending(scan_update(old, chain)) == chain,
{
    lemma_common_len_prefix(old.entries, chain);
    let p = old.processed as int;
    assert(old.entries.subrange(0, p) =~= chain.subrange(0, p));
    assert(chain.subrange(0, p) + chain.subrange(p, chain.len() as int) =~= chain);
}

proof fn lemma_common_len_prefix(a: Seq<HeaderNode>, b: Seq<HeaderNode>)
    requires
        a.len() <= b.len(),
        b.subrange(0, a.len() as int) == a,
    ensures
        common_len(a, b) == a.len(),
    decreases a.len(),
{
    if a.len() > 0 {
        assert(b[0] == b.subrange(0, a.len() as int)[0]);
        assert(b.drop_first().subrange(0, a.len() - 1) =~= a.drop_first());
        lemma_common_len_prefix(a.drop_first(), b.drop_first());
    }
}


/// The header pass: scans every archive file, selects the canonical chain
/// and makes it the record's chain, cut back to the fork point first where a
/// longer branch replaced recorded entries. Returns the fork point.
pub fn run_header_scan(st: &mut ChainStorage, files: &Vec<Vec<u8>>) -> (r: Result<
    usize,
    EngineError,
>)
    requires
        old(st).wf(),
    ensures
        final(st).wf(),
        match scan_nodes(file_views(files@), 0, files@.len()) {
            Some(nodes) => r is Ok && final(st).entries@ == canonical_nodes_spec(nodes)
                && final(st).processed as nat == scan_update(
                old(st).view(),
                canonical_nodes_spec(nodes),
            ).processed && final(st).latest_blk_idx == if files@.len() == 0 {
                old(st).latest_blk_idx
            } else {
                (files@.len() - 1) as u64
            },
            None => r == Err::<usize, EngineError>(EngineError::MalformedRecord) && *final(st)
                == *old(st),
        },
{
    let _n = files.len();
    let nodes = match scan_headers(files, 0) {
        Ok(n) => n,
        Err(_) => return Err(EngineError::MalformedRecord),
    };
    let chain = canonical_nodes(&nodes);
    proof {
        lemma_canonical_nodes_linked(nodes@);
    }
    let fork = match st.replace_chain(&chain) {
        Ok(f) => f,
        Err(_) => return Err(EngineError::CorruptChain),
    };
    if files.len() > 0 {
        st.set_latest_blk_idx((files.len() - 1) as u64);
    }
    Ok(fork)
}

/// Largest payload a record frame can declare.
pub const MAX_PAYLOAD: u64 = 0xffff_ffff;

/// The payload that an entry's location names, if the archive files hold it;
/// file `k` of `files` carries index `first + k`.
pub open spec fn payload_spec(files: Seq<Seq<u8>>, first: u64, e: HeaderNode) -> Option<Seq<u8>> {
    let k = e.loc.file_index - first;
    if e.loc.file_index >= first && k < files.len() && e.loc.offset + e.loc.len <= files[k].len()
        && e.loc.len <= MAX_PAYLOAD {
        Some(files[k].subrange(e.loc.offset as int, e.loc.offset + e.loc.len))
    } else {
        None
    }
}

/// What stops the delivery of a pending entry, if anything.
pub open spec fn delivery_fault(files: Seq<Seq<u8>>, first: u64, verify: bool, e: HeaderNode) -> Option<
    EngineError,
> {
    match payload_spec(files, first, e) {
        Some(p) => record_fault(p, verify, e),
        None => Some(EngineError::MalformedRecord),
    }
}

/// Reads the payload that a location names, if the archive holds it.
pub fn read_payload(files: &Vec<Vec<u8>>, first: u64, e: &HeaderNode) -> (r: Option<Vec<u8>>)
    ensures
        match payload_spec(file_views(files@), first, *e) {
            Some(p) => r matches Some(v) && v@ == p,
            None => r is None,
        },
{
    if e.loc.file_index < first || e.loc.len > MAX_PAYLOAD {
        return None;
    }
    let k = e.loc.file_index - first;
    if k >= files.len() as u64 {
        return None;
    }
    let f = &files[k as usize];
    assert(file_views(files@)[k as int] == f@);
    let flen = f.len() as u64;
    if e.loc.offset > flen || e.loc.len > flen - e.loc.offset {
        return None;
    }
    Some(copy_range(f.as_slice(), e.loc.offset as usize, (e.loc.offset + e.loc.len) as usize))
}

/// Delivers the block at the record's current height: reads, decodes and
/// checks it, hands it to the consumer and records the delivery.
fn deliver_step<C: Callback>(
    st: &mut ChainStorage,
    files: &Vec<Vec<u8>>,
    first: u64,
    verify: bool,
    cb: &mut Consumer<C>,
) -> (r: Result<(), EngineError>)
    requires
        old(st).wf(),
        old(st).processed < old(st).entries@.len(),
    ensures
        final(st).wf(),
        final(st).entries@ == old(st).entries@,
        final(st).latest_blk_idx == old(st).latest_blk_idx,
        r is Ok ==> delivery_fault(
            file_views(files@),
            first,
            verify,
            old(st).entries@[old(st).processed as int],
        ) is None && final(st).processed == old(st).processed + 1 && final(cb).calls()
            == old(cb).calls().push(CallEvent::Block(old(st).processed, true)),
        r == Err::<(), EngineError>(EngineError::BackendFailure) ==> delivery_fault(
            file_views(files@),
            first,
            verify,
            old(st).entries@[old(st).processed as int],
        ) is None && final(st).processed == old(st).processed && final(cb).calls()
            == old(cb).calls().push(CallEvent::Block(old(st).processed, false)),
        r is Err && r->Err_0 != EngineError::BackendFailure ==> delivery_fault(
            file_views(files@),
            first,
            verify,
            old(st).entries@[old(st).processed as int],
        ) == Some(r->Err_0) && final(st).processed == old(st).processed && final(cb).calls()
            == old(cb).calls(),
{
    let height = st.processed;
    let _n = st.entries.len();
    let e = st.entries[height as usize];
    assert(e == old(st).entries@[old(st).processed as int]);
    let payload = match read_payload(files, first, &e) {
        Some(p) => p,
        None => return Err(EngineError::MalformedRecord),
    };
    let block = match decode_pending(payload.as_slice(), verify, &e) {
        Ok(b) => b,
        Err(x) => return Err(x),
    };
    if !cb.block(&block, height) {
        return Err(EngineError::BackendFailure);
    }
    st.mark_processed();
    Ok(())
}

/// The calls a full pass makes to its consumer, from the record `before` to
/// `after`, when it moved delivery from height `p0` to `p1` and returned `r`:
/// `on_start`, then one successful `on_block` per delivered height in order,
/// then `on_complete`. A consumer failure is the last call made and the only
/// source of `BackendFailure`; any other error is the fault of the block at
/// `p1`, and no call is made for that block.
#[verifier::opaque]
pub open spec fn full_data_calls(
    before: Seq<CallEvent>,
    after: Seq<CallEvent>,
    p0: nat,
    p1: nat,
    entries: Seq<HeaderNode>,
    files: Seq<Seq<u8>>,
    first: u64,
    verify: bool,
    r: Result<u64, EngineError>,
) -> bool {
    let len = entries.len();
    let run = before.push(CallEvent::Start(true)) + blocks_delivered(p0, p1);
    if r is Ok {
        p1 == len && r->Ok_0 == len - p0 && after == run.push(CallEvent::Complete(true))
    } else if r->Err_0 == EngineError::BackendFailure {
        after == before.push(CallEvent::Start(false)) || (p1 < len && after == run.push(
            CallEvent::Block(p1 as u64, false),
        )) || (p1 == len && after == run.push(CallEvent::Complete(false)))
    } else {
        p1 < len && after == run && delivery_fault(files, first, verify, entries[p1 as int])
            == Some(r->Err_0)
    }
}

/// The full pass: delivers every pending block, in height order, to the
/// consumer between `on_start` and `on_complete`, recording each delivery.
/// Archive file `k` of `files` carries index `first + k`. The first failure
/// (an unreadable location, a malformed record, a Merkle mismatch when
/// verification is on, a hash other than the recorded one, or a consumer
/// error) ends the pass at once, without `on_complete`; the record keeps the
/// blocks delivered so far, so a resumed run goes on from the failed one.
pub fn run_full_data<C: Callback>(
    st: &mut ChainStorage,
    files: &Vec<Vec<u8>>,
    first: u64,
    verify: bool,
    cb: &mut Consumer<C>,
) -> (r: Result<u64, EngineError>)
    requires
        old(st).wf(),
    ensures
        final(st).wf(),
        final(st).entries@ == old(st).entries@,
        final(st).latest_blk_idx == old(st).latest_blk_idx,
        old(st).processed <= final(st).processed,
        forall|h: int|
            old(st).processed <= h < final(st).processed ==> delivery_fault(
                file_views(files@),
                first,
                verify,
                #[trigger] final(st).entries@[h],
            ) is None,
        full_data_calls(
            old(cb).calls(),
            final(cb).calls(),
            old(st).processed as nat,
            final(st).processed as nat,
            final(st).entries@,
            file_views(files@),
            first,
            verify,
            r,
        ),
{
    let ghost before = cb.calls();
    if !cb.start() {
        {
            reveal(full_data_calls);
            return Err(EngineError::BackendFailure);
        }
    }
    let start = st.processed;
    proof {
        assert(blocks_delivered(start as nat, start as nat) =~= Seq::<CallEvent>::empty());
        assert(cb.calls() =~= before.push(CallEvent::Start(true)) + blocks_delivered(
            start as nat,
            start as nat,
        ));
    }
    while st.processed < st.entries.len() as u64
        invariant
            st.wf(),
            st.entries@ == old(st).entries@,
            st.latest_blk_idx == old(st).latest_blk_idx,
            start == old(st).processed,
            start <= st.processed,
            before == old(cb).calls(),
            forall|h: int|
                start <= h < st.processed ==> delivery_fault(
                    file_views(files@),
                    first,
                    verify,
                    #[trigger] st.entries@[h],
                ) is None,
            cb.calls() == before.push(CallEvent::Start(true)) + blocks_delivered(
                start as nat,
                st.processed as nat,
            ),
        decreases st.entries@.len() - st.processed,
    {
        let height = st.processed;
        let _n = st.entries.len();
        let step = deliver_step(st, files, first, verify, cb);
        match step {
            Ok(()) => {},
            Err(x) => {
                reveal(full_data_calls);
                return Err(x);
            },
        }
        proof {
            assert(blocks_delivered(start as nat, st.processed as nat) =~= blocks_delivered(
                start as nat,
                height as nat,
            ).push(CallEvent::Block(height, true)));
            assert(cb.calls() =~= before.push(CallEvent::Start(true)) + blocks_delivered(
                start as nat,
                st.processed as nat,
            ));
        }
    }
    if !cb.complete() {
        {
            reveal(full_data_calls);
            return Err(EngineError::BackendFailure);
        }
    }
    reveal(full_data_calls);
    Ok(st.processed - start)
}

} // verus!
