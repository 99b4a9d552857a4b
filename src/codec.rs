//! Decoding of framed block records: little-endian integers, compact integers,
//! block headers and transaction lists.

use vstd::prelude::*;

verus! {

/// Errors raised while decoding archive bytes.
#[derive(Debug, Clone, Copy, PartialEq, Eq, Structural)]
pub enum DecodeError {
    /// A length, count or fixed field runs past the available bytes.
    MalformedRecord,
}

/// Little-endian value of the two bytes at `p`.
pub open spec fn le16(s: Seq<u8>, p: int) -> nat {
    (s[p] as nat) + 256 * (s[p + 1] as nat)
}

/// Little-endian value of the four bytes at `p`.
pub open spec fn le32(s: Seq<u8>, p: int) -> nat {
    le16(s, p) + 65536 * le16(s, p + 2)
}

/// Little-endian value of the eight bytes at `p`.
pub open spec fn le64(s: Seq<u8>, p: int) -> nat {
    le32(s, p) + 4294967296 * le32(s, p + 4)
}

pub fn read_u16_le(s: &[u8], p: usize) -> (r: u16)
    requires
        p + 2 <= s@.len(),
    ensures
        r as nat == le16(s@, p as int),
{
    (s[p] as u16) + 256 * (s[p + 1] as u16)
}

pub fn read_u32_le(s: &[u8], p: usize) -> (r: u32)
    requires
        p + 4 <= s@.len(),
    ensures
        r as nat == le32(s@, p as int),
{
    let _len = s.len();
    let lo = read_u16_le(s, p) as u32;
    let hi = read_u16_le(s, p + 2) as u32;
    lo + 65536 * hi
}

pub fn read_u64_le(s: &[u8], p: usize) -> (r: u64)
    requires
        p + 8 <= s@.len(),
    ensures
        r as nat == le64(s@, p as int),
{
    let _len = s.len();
    let lo = read_u32_le(s, p) as u64;
    let hi = read_u32_le(s, p + 4) as u64;
    lo + 4294967296 * hi
}

/// The compact integer at `p`: its value and the position just past it.
/// The marker byte selects the form: below 0xfd it is the value itself,
/// 0xfd, 0xfe and 0xff announce a 2, 4 or 8 byte little-endian value.
pub open spec fn compact_at(s: Seq<u8>, p: int) -> Option<(nat, int)> {
    if p < 0 || p >= s.len() {
        None
    } else if s[p] < 0xfd {
        Some((s[p] as nat, p + 1))
    } else if s[p] == 0xfd {
        if p + 3 <= s.len() { Some((le16(s, p + 1), p + 3)) } else { None }
    } else if s[p] == 0xfe {
        if p + 5 <= s.len() { Some((le32(s, p + 1), p + 5)) } else { None }
    } else {
        if p + 9 <= s.len() { Some((le64(s, p + 1), p + 9)) } else { None }
    }
}

/// Reads the compact integer at `p`.
pub fn read_compact(s: &[u8], p: usize) -> (r: Result<(u64, usize), DecodeError>)
    ensures
        match compact_at(s@, p as int) {
            Some((v, q)) => r == Ok::<(u64, usize), DecodeError>((v as u64, q as usize)),
            None => r == Err::<(u64, usize), DecodeError>(DecodeError::MalformedRecord),
        },
        r is Ok ==> r->Ok_0.1 <= s@.len(),
{
    if p >= s.len() {
        return Err(DecodeError::MalformedRecord);
    }
    let m = s[p];
    if m < 0xfd {
        Ok((m as u64, p + 1))
    } else if m == 0xfd {
        if s.len() - p < 3 {
            return Err(DecodeError::MalformedRecord);
        }
        Ok((read_u16_le(s, p + 1) as u64, p + 3))
    } else if m == 0xfe {
        if s.len() - p < 5 {
            return Err(DecodeError::MalformedRecord);
        }
        Ok((read_u32_le(s, p + 1) as u64, p + 5))
    } else {
        if s.len() - p < 9 {
            return Err(DecodeError::MalformedRecord);
        }
        Ok((read_u64_le(s, p + 1) as u64, p + 9))
    }
}


/// End of the transaction input at `p`: a 32-byte previous transaction hash,
/// a 4-byte output index, a compact-prefixed script and a 4-byte sequence.
pub open spec fn input_end(s: Seq<u8>, p: int) -> Option<int> {
    match compact_at(s, p + 36) {
        Some((l, q)) => if q + l + 4 <= s.len() { Some(q + l + 4) } else { None },
        None => None,
    }
}

/// End of the transaction output at `p`: an 8-byte value and a
/// compact-prefixed script.
pub open spec fn output_end(s: Seq<u8>, p: int) -> Option<int> {
    match compact_at(s, p + 8) {
        Some((l, q)) => if q + l <= s.len() { Some(q + l) } else { None },
        None => None,
    }
}

/// End of `n` consecutive inputs (or outputs) starting at `p`.
pub open spec fn items_end(s: Seq<u8>, p: int, n: nat, inputs: bool) -> Option<int>
    decreases n,
{
    if n == 0 {
        Some(p)
    } else {
        let e = if inputs { input_end(s, p) } else { output_end(s, p) };
        match e {
            Some(q) => items_end(s, q, (n - 1) as nat, inputs),
            None => None,
        }
    }
}

/// End of the transaction at `p`: a 4-byte version, the compact-counted
/// inputs, the compact-counted outputs and a 4-byte lock time.
#[verifier::opaque]
pub open spec fn tx_end(s: Seq<u8>, p: int) -> Option<int> {
    match compact_at(s, p + 4) {
        Some((ni, a)) => match items_end(s, a, ni, true) {
            Some(b) => match compact_at(s, b) {
                Some((no, c)) => match items_end(s, c, no, false) {
                    Some(d) => if d + 4 <= s.len() { Some(d + 4) } else { None },
                    None => None,
                },
                None => None,
            },
            None => None,
        },
        None => None,
    }
}

/// The raw bytes of `n` consecutive transactions starting at `p`, and the
/// position just past the last one.
pub open spec fn txs_at(s: Seq<u8>, p: int, n: nat) -> Option<(Seq<Seq<u8>>, int)>
    decreases n,
{
    if n == 0 {
        Some((Seq::empty(), p))
    } else {
        match tx_end(s, p) {
            Some(e) => match txs_at(s, e, (n - 1) as nat) {
                Some((rest, f)) => Some((seq![s.subrange(p, e)] + rest, f)),
                None => None,
            },
            None => None,
        }
    }
}

proof fn lemma_compact_advances(s: Seq<u8>, p: int)
    ensures
        compact_at(s, p) matches Some((v, q)) ==> p < q <= s.len(),
{
}

proof fn lemma_items_end_bounds(s: Seq<u8>, p: int, n: nat, inputs: bool)
    requires
        0 <= p,
    ensures
        items_end(s, p, n, inputs) matches Some(q) ==> p <= q && (n > 0 ==> q <= s.len()),
    decreases n,
{
    if n > 0 {
        lemma_compact_advances(s, p + 36);
        lemma_compact_advances(s, p + 8);
        let e = if inputs { input_end(s, p) } else { output_end(s, p) };
        if let Some(q) = e {
            lemma_items_end_bounds(s, q, (n - 1) as nat, inputs);
        }
    }
}

/// Position just past `n` inputs (or outputs) starting at `p`.
fn skip_items(s: &[u8], p: usize, n: u64, inputs: bool) -> (r: Result<usize, DecodeError>)
    requires
        p <= s@.len(),
    ensures
        match items_end(s@, p as int, n as nat, inputs) {
            Some(q) => r == Ok::<usize, DecodeError>(q as usize),
            None => r == Err::<usize, DecodeError>(DecodeError::MalformedRecord),
        },
{
    let len = s.len();
    let mut pos = p;
    let mut i: u64 = 0;
    while i < n
        invariant
            len == s@.len(),
            i <= n,
            p <= pos <= len,
            items_end(s@, p as int, n as nat, inputs) == items_end(
                s@,
                pos as int,
                (n - i) as nat,
                inputs,
            ),
        decreases n - i,
    {
        let fixed: usize = if inputs { 36 } else { 8 };
        if len - pos < fixed {
            return Err(DecodeError::MalformedRecord);
        }
        let (l, q) = read_compact(s, pos + fixed)?;
        let tail: usize = if inputs { 4 } else { 0 };
        if len - q < tail || ((len - q - tail) as u64) < l {
            return Err(DecodeError::MalformedRecord);
        }
        pos = q + l as usize + tail;
        i = i + 1;
    }
    Ok(pos)
}

/// Position just past the transaction at `p`.
pub fn skip_tx(s: &[u8], p: usize) -> (r: Result<usize, DecodeError>)
    requires
        p <= s@.len(),
    ensures
        match tx_end(s@, p as int) {
            Some(q) => r == Ok::<usize, DecodeError>(q as usize),
            None => r == Err::<usize, DecodeError>(DecodeError::MalformedRecord),
        },
        r is Ok ==> p < r->Ok_0 <= s@.len(),
        tx_end(s@, p as int) matches Some(q) ==> p < q <= s@.len(),
{
    reveal(tx_end);
    let len = s.len();
    if len - p < 4 {
        return Err(DecodeError::MalformedRecord);
    }
    let (ni, a) = read_compact(s, p + 4)?;
    proof { lemma_items_end_bounds(s@, a as int, ni as nat, true); }
    let b = skip_items(s, a, ni, true)?;
    let (no, c) = read_compact(s, b)?;
    proof { lemma_items_end_bounds(s@, c as int, no as nat, false); }
    let d = skip_items(s, c, no, false)?;
    if len - d < 4 {
        return Err(DecodeError::MalformedRecord);
    }
    Ok(d + 4)
}

proof fn lemma_tx_end_bounds(s: Seq<u8>, p: int)
    requires
        0 <= p,
    ensures
        tx_end(s, p) matches Some(q) ==> p < q <= s.len(),
{
    reveal(tx_end);
    lemma_compact_advances(s, p + 4);
    if let Some((ni, a)) = compact_at(s, p + 4) {
        lemma_items_end_bounds(s, a, ni, true);
        if let Some(b) = items_end(s, a, ni, true) {
            lemma_compact_advances(s, b);
            if let Some((no, c)) = compact_at(s, b) {
                lemma_items_end_bounds(s, c, no, false);
            }
        }
    }
}

/// Each transaction found lies within the bytes.
pub proof fn lemma_txs_at_bounds(s: Seq<u8>, p: int, n: nat)
    requires
        0 <= p,
    ensures
        txs_at(s, p, n) matches Some((txs, e)) ==> forall|k: int|
            0 <= k < txs.len() ==> (#[trigger] txs[k]).len() <= s.len(),
    decreases n,
{
    if n > 0 {
        lemma_tx_end_bounds(s, p);
        if let Some(e) = tx_end(s, p) {
            lemma_txs_at_bounds(s, e, (n - 1) as nat);
            if let Some((rest, f)) = txs_at(s, e, (n - 1) as nat) {
                let all = seq![s.subrange(p, e)] + rest;
                assert forall|k: int| 0 < k < all.len() implies all[k] == rest[k - 1] by {}
            }
        }
    }
}

/// A copy of `s[a..b]`.
pub fn copy_range(s: &[u8], a: usize, b: usize) -> (r: Vec<u8>)
    requires
        a <= b <= s@.len(),
    ensures
        r@ == s@.subrange(a as int, b as int),
{
    let mut r: Vec<u8> = Vec::with_capacity(b - a);
    let mut i = a;
    while i < b
        invariant
            a <= i <= b <= s@.len(),
            r@ == s@.subrange(a as int, i as int),
        decreases b - i,
    {
        r.push(s[i]);
        i = i + 1;
        assert(r@ =~= s@.subrange(a as int, i as int));
    }
    r
}


/// Size of a serialized block header.
pub const HEADER_LEN: usize = 80;

/// The fixed-width fields at the start of a block record.
#[derive(Debug, Clone)]
pub struct BlockHeader {
    pub version: u32,
    pub prev_hash: Vec<u8>,
    pub merkle_root: Vec<u8>,
    pub timestamp: u32,
    pub bits: u32,
    pub nonce: u32,
}

/// One transaction, kept as its raw bytes (the input of its digest).
#[derive(Debug, Clone)]
pub struct Transaction {
    pub raw: Vec<u8>,
}

/// A decoded block record.
#[derive(Debug, Clone)]
pub struct Block {
    pub header: BlockHeader,
    /// The serialized header, whose double digest is the block's hash.
    pub header_bytes: Vec<u8>,
    pub txs: Vec<Transaction>,
}

/// The header decoded from the bytes at `p`.
pub open spec fn header_matches(h: BlockHeader, s: Seq<u8>, p: int) -> bool {
    &&& h.version as nat == le32(s, p)
    &&& h.prev_hash@ == s.subrange(p + 4, p + 36)
    &&& h.merkle_root@ == s.subrange(p + 36, p + 68)
    &&& h.timestamp as nat == le32(s, p + 68)
    &&& h.bits as nat == le32(s, p + 72)
    &&& h.nonce as nat == le32(s, p + 76)
}

/// Decodes the block header at `p`.
pub fn decode_header(s: &[u8], p: usize) -> (h: BlockHeader)
    requires
        p + 80 <= s@.len(),
    ensures
        header_matches(h, s@, p as int),
{
    let _len = s.len();
    BlockHeader {
        version: read_u32_le(s, p),
        prev_hash: copy_range(s, p + 4, p + 36),
        merkle_root: copy_range(s, p + 36, p + 68),
        timestamp: read_u32_le(s, p + 68),
        bits: read_u32_le(s, p + 72),
        nonce: read_u32_le(s, p + 76),
    }
}

/// The raw transactions of the block record `s` and the number of bytes the
/// record takes: an 80-byte header, a compact transaction count, then the
/// transactions.
pub open spec fn block_layout(s: Seq<u8>) -> Option<(Seq<Seq<u8>>, int)> {
    if s.len() < 80 {
        None
    } else {
        match compact_at(s, 80) {
            Some((n, q)) => txs_at(s, q, n),
            None => None,
        }
    }
}

pub open spec fn tx_views(txs: Seq<Transaction>) -> Seq<Seq<u8>> {
    txs.map_values(|t: Transaction| t.raw@)
}

/// Decodes `n` consecutive transactions starting at `q`.
fn decode_txs(s: &[u8], q: usize, n: u64) -> (r: Result<(Vec<Transaction>, usize), DecodeError>)
    requires
        q <= s@.len(),
    ensures
        match txs_at(s@, q as int, n as nat) {
            Some((txs, end)) => r matches Ok((v, used)) && used == end && tx_views(v@) == txs,
            None => r == Err::<(Vec<Transaction>, usize), DecodeError>(
                DecodeError::MalformedRecord,
            ),
        },
{
    let len = s.len();
    let mut txs: Vec<Transaction> = Vec::new();
    let mut pos = q;
    let mut i: u64 = 0;
    while i < n
        invariant
            len == s@.len(),
            q <= pos <= len,
            i <= n,
            txs_at(s@, q as int, n as nat) == match txs_at(s@, pos as int, (n - i) as nat) {
                Some((rest, f)) => Some((tx_views(txs@) + rest, f)),
                None => None::<(Seq<Seq<u8>>, int)>,
            },
        decreases n - i,
    {
        let e = match skip_tx(s, pos) {
            Ok(e) => e,
            Err(err) => {
                assert(txs_at(s@, pos as int, (n - i) as nat) is None);
                return Err(err);
            },
        };
        let ghost before = tx_views(txs@);
        let tx = Transaction { raw: copy_range(s, pos, e) };
        txs.push(tx);
        proof {
            assert(tx_views(txs@) =~= before.push(s@.subrange(pos as int, e as int)));
            let sub = s@.subrange(pos as int, e as int);
            let step = txs_at(s@, e as int, (n - i - 1) as nat);
            assert(txs_at(s@, pos as int, (n - i) as nat) == match step {
                Some((rest, f)) => Some((seq![sub] + rest, f)),
                None => None::<(Seq<Seq<u8>>, int)>,
            });
            if let Some((rest, f)) = step {
                assert(before + (seq![sub] + rest) =~= tx_views(txs@) + rest);
            }
        }
        pos = e;
        i = i + 1;
    }
    proof {
        assert(tx_views(txs@) + Seq::<Seq<u8>>::empty() =~= tx_views(txs@));
    }
    Ok((txs, pos))
}

/// Decodes one block record from the start of `s`; returns the block and the
/// number of bytes it takes.
pub fn decode_block(s: &[u8]) -> (r: Result<(Block, usize), DecodeError>)
    ensures
        match block_layout(s@) {
            Some((txs, end)) => r matches Ok((b, used)) && used == end && header_matches(
                b.header,
                s@,
                0,
            ) && b.header_bytes@ == s@.subrange(0, 80) && tx_views(b.txs@) == txs,
            None => r == Err::<(Block, usize), DecodeError>(DecodeError::MalformedRecord),
        },
{
    let len = s.len();
    if len < HEADER_LEN {
        return Err(DecodeError::MalformedRecord);
    }
    let header = decode_header(s, 0);
    let header_bytes = copy_range(s, 0, HEADER_LEN);
    let (n, q) = read_compact(s, HEADER_LEN)?;
    let (txs, used) = decode_txs(s, q, n)?;
    Ok((Block { header, header_bytes, txs }, used))
}

/// The network markers that open a block record.
pub open spec fn known_magic(m: nat) -> bool {
    m == 0xd9b4bef9 || m == 0x0709110b || m == 0xdab5bffa
}

pub fn is_known_magic(m: u32) -> (r: bool)
    ensures
        r == known_magic(m as nat),
{
    m == 0xd9b4bef9 || m == 0x0709110b || m == 0xdab5bffa
}

/// Where a block record's payload lies within an archive file.
#[derive(Debug, Clone, Copy, PartialEq, Eq, Structural)]
pub struct RecordSpan {
    pub offset: usize,
    pub len: usize,
}

/// The payload spans of the records of `s` from `p` on: each frame is a 4-byte
/// magic and a 4-byte payload length followed by the payload. Frames with an
/// unknown magic are passed over; a frame that runs past the end is malformed.
pub open spec fn frames_from(s: Seq<u8>, p: int) -> Option<Seq<(int, int)>>
    decreases s.len() - p,
{
    if p < 0 || p >= s.len() {
        Some(Seq::empty())
    } else if p + 8 > s.len() || p + 8 + le32(s, p + 4) > s.len() {
        None
    } else {
        let l = le32(s, p + 4) as int;
        match frames_from(s, p + 8 + l) {
            Some(rest) => if known_magic(le32(s, p)) {
                Some(seq![(p + 8, l)] + rest)
            } else {
                Some(rest)
            },
            None => None,
        }
    }
}

/// Every payload span found lies inside the file.
pub proof fn lemma_frames_in_bounds(s: Seq<u8>, p: int)
    ensures
        frames_from(s, p) matches Some(spans) ==> forall|k: int|
            0 <= k < spans.len() ==> 0 <= (#[trigger] spans[k]).0 && spans[k].0 + spans[k].1 <= s.len()
                && 0 <= spans[k].1,
    decreases s.len() - p,
{
    if 0 <= p < s.len() && p + 8 <= s.len() && p + 8 + le32(s, p + 4) <= s.len() {
        let l = le32(s, p + 4) as int;
        lemma_frames_in_bounds(s, p + 8 + l);
        if let Some(rest) = frames_from(s, p + 8 + l) {
            if known_magic(le32(s, p)) {
                let all = seq![(p + 8, l)] + rest;
                assert forall|k: int| 0 < k < all.len() implies all[k] == rest[k - 1] by {}
            }
        }
    }
}

/// A frame whose declared payload runs past the end of the file makes the
/// whole file malformed, as does a frame header cut short.
pub proof fn lemma_truncated_frame_malformed(s: Seq<u8>, p: int)
    requires
        0 <= p < s.len(),
        p + 8 > s.len() || p + 8 + le32(s, p + 4) > s.len(),
    ensures
        frames_from(s, p) is None,
{
}

pub open spec fn span_views(v: Seq<RecordSpan>) -> Seq<(int, int)> {
    v.map_values(|x: RecordSpan| (x.offset as int, x.len as int))
}

/// Lists the payload spans of the block records of an archive file.
pub fn scan_records(s: &[u8]) -> (r: Result<Vec<RecordSpan>, DecodeError>)
    ensures
        match frames_from(s@, 0) {
            Some(spans) => r matches Ok(v) && span_views(v@) == spans,
            None => r == Err::<Vec<RecordSpan>, DecodeError>(DecodeError::MalformedRecord),
        },
{
    let len = s.len();
    let mut out: Vec<RecordSpan> = Vec::new();
    let mut pos: usize = 0;
    while pos < len
        invariant
            len == s@.len(),
            pos <= len,
            frames_from(s@, 0) == match frames_from(s@, pos as int) {
                Some(rest) => Some(span_views(out@) + rest),
                None => None::<Seq<(int, int)>>,
            },
        decreases len - pos,
    {
        if len - pos < 8 {
            return Err(DecodeError::MalformedRecord);
        }
        let magic = read_u32_le(s, pos);
        let l = read_u32_le(s, pos + 4) as usize;
        if len - pos - 8 < l {
            return Err(DecodeError::MalformedRecord);
        }
        let next = pos + 8 + l;
        let ghost before = span_views(out@);
        if is_known_magic(magic) {
            out.push(RecordSpan { offset: pos + 8, len: l });
            proof {
                assert(span_views(out@) =~= before.push((pos + 8, l as int)));
                if let Some(rest) = frames_from(s@, next as int) {
                    assert(before + (seq![(pos + 8, l as int)] + rest) =~= span_views(out@)
                        + rest);
                }
            }
        }
        pos = next;
    }
    proof {
        assert(span_views(out@) + Seq::<(int, int)>::empty() =~= span_views(out@));
    }
    Ok(out)
}

} // verus!
