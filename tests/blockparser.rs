use rusty_blockparser::archive::{archive_indices, parse_blk_index};
use rusty_blockparser::chain::{canonical_chain, read_hash, BlockLocation, Hash256, HeaderNode};
use rusty_blockparser::codec::{
    decode_block, read_compact, read_u32_le, read_u64_le, scan_records, Block, DecodeError,
    RecordSpan, Transaction,
};
use rusty_blockparser::engine::{
    choose_mode, decode_pending, next_action, run_full_data, run_header_scan, start_file_index,
    Action, EngineError, ParseMode,
};
use rusty_blockparser::consumer::{CallEvent, Callback, Consumer};
use rusty_blockparser::merkle::{block_hash, double_sha256, merkle_root, verify_merkle_root};
use rusty_blockparser::options::{list_callbacks, load_chain_file, ConfigError, ParserOptions};
use rusty_blockparser::scanner::{canonical_nodes, scan_file_headers, scan_headers};
use rusty_blockparser::storage::{ChainStorage, StorageError};

const MAGIC: [u8; 4] = [0xf9, 0xbe, 0xb4, 0xd9];

fn make_tx(tag: u8) -> Vec<u8> {
    let mut t = vec![1, 0, 0, 0, 1];
    t.extend_from_slice(&[tag; 32]);
    t.extend_from_slice(&[0xff, 0xff, 0xff, 0xff]);
    t.extend_from_slice(&[1, tag]);
    t.extend_from_slice(&[0xff, 0xff, 0xff, 0xff]);
    t.push(1);
    t.extend_from_slice(&[0, 0xf2, 0x05, 0x2a, 1, 0, 0, 0]);
    t.extend_from_slice(&[2, 0x51, tag]);
    t.extend_from_slice(&[0, 0, 0, 0]);
    t
}

fn root_of(txs: &[Vec<u8>]) -> Vec<u8> {
    let v: Vec<Transaction> = txs.iter().map(|r| Transaction { raw: r.clone() }).collect();
    merkle_root(&v)
}

/// Returns the payload of a block and its hash bytes.
fn make_block(prev: &[u8], txs: &[Vec<u8>], nonce: u32) -> (Vec<u8>, Vec<u8>) {
    let mut p = vec![1, 0, 0, 0];
    p.extend_from_slice(prev);
    p.extend_from_slice(&root_of(txs));
    p.extend_from_slice(&1231006505u32.to_le_bytes());
    p.extend_from_slice(&0x1d00ffffu32.to_le_bytes());
    p.extend_from_slice(&nonce.to_le_bytes());
    p.push(txs.len() as u8);
    for t in txs {
        p.extend_from_slice(t);
    }
    let hash = double_sha256(&p[0..80]);
    (p, hash)
}

fn frame(payload: &[u8]) -> Vec<u8> {
    let mut f = MAGIC.to_vec();
    f.extend_from_slice(&(payload.len() as u32).to_le_bytes());
    f.extend_from_slice(payload);
    f
}

/// Builds a linear chain of `n` blocks; returns the payloads and hashes.
fn make_chain(n: usize, from: &[u8], salt: u8) -> Vec<(Vec<u8>, Vec<u8>)> {
    let mut out = Vec::new();
    let mut prev = from.to_vec();
    for i in 0..n {
        let (p, h) = make_block(&prev, &[make_tx(i as u8 ^ salt)], i as u32 + salt as u32 * 1000);
        prev = h.clone();
        out.push((p, h));
    }
    out
}

fn node(hash: u64, prev: u64) -> HeaderNode {
    HeaderNode {
        hash: Hash256 { w0: hash, w1: 0, w2: 0, w3: 0 },
        prev: Hash256 { w0: prev, w1: 0, w2: 0, w3: 0 },
        loc: BlockLocation { file_index: 0, offset: hash, len: 0 },
    }
}

struct Recorder {
    events: Vec<String>,
    heights: Vec<u64>,
    fail_at: Option<u64>,
}

impl Recorder {
    fn new() -> Self {
        Recorder { events: Vec::new(), heights: Vec::new(), fail_at: None }
    }
}

impl Callback for Recorder {
    fn on_start(&mut self) -> Result<(), String> {
        self.events.push("start".to_string());
        Ok(())
    }
    fn on_block(&mut self, _block: &Block, height: u64) -> Result<(), String> {
        if self.fail_at == Some(height) {
            return Err("stop".to_string());
        }
        self.events.push(format!("block {}", height));
        self.heights.push(height);
        Ok(())
    }
    fn on_complete(&mut self) -> Result<(), String> {
        self.events.push("complete".to_string());
        Ok(())
    }
}

#[test]
fn little_endian_reads() {
    let b = [0x78, 0x56, 0x34, 0x12, 0xef, 0xcd, 0xab, 0x90];
    assert_eq!(read_u32_le(&b, 0), 0x12345678);
    assert_eq!(read_u64_le(&b, 0), 0x90abcdef12345678);
}

#[test]
fn compact_integer_forms() {
    assert_eq!(read_compact(&[0xfc], 0), Ok((0xfc, 1)));
    assert_eq!(read_compact(&[0xfd, 0x34, 0x12], 0), Ok((0x1234, 3)));
    assert_eq!(read_compact(&[0xfe, 0x78, 0x56, 0x34, 0x12], 0), Ok((0x12345678, 5)));
    assert_eq!(
        read_compact(&[0xff, 1, 2, 3, 4, 5, 6, 7, 8], 0),
        Ok((0x0807060504030201, 9))
    );
    assert_eq!(read_compact(&[0xfd, 0x34], 0), Err(DecodeError::MalformedRecord));
    assert_eq!(read_compact(&[0xfe, 1, 2, 3], 0), Err(DecodeError::MalformedRecord));
    assert_eq!(read_compact(&[0xff, 1, 2, 3, 4, 5, 6, 7], 0), Err(DecodeError::MalformedRecord));
    assert_eq!(read_compact(&[], 0), Err(DecodeError::MalformedRecord));
}

#[test]
fn double_digest_of_empty_input() {
    let d = double_sha256(&[]);
    let hex: String = d.iter().map(|b| format!("{:02x}", b)).collect();
    assert_eq!(hex, "5df6e0e2761359d30a8275058e299fcc0381534545f55cf43e41983f5d4c9456");
}

#[test]
fn decode_block_reads_header_and_transactions() {
    let txs = vec![make_tx(1), make_tx(2)];
    let (p, h) = make_block(&[7u8; 32], &txs, 42);
    let (b, used) = decode_block(&p).unwrap();
    assert_eq!(used, p.len());
    assert_eq!(b.header.version, 1);
    assert_eq!(b.header.prev_hash, vec![7u8; 32]);
    assert_eq!(b.header.timestamp, 1231006505);
    assert_eq!(b.header.bits, 0x1d00ffff);
    assert_eq!(b.header.nonce, 42);
    assert_eq!(b.txs.len(), 2);
    assert_eq!(b.txs[0].raw, txs[0]);
    assert_eq!(b.txs[1].raw, txs[1]);
    assert_eq!(block_hash(&b), h);
    assert!(verify_merkle_root(&b));
}

#[test]
fn decode_block_rejects_truncation() {
    let (p, _) = make_block(&[0u8; 32], &[make_tx(1)], 0);
    assert!(matches!(decode_block(&p[..p.len() - 1]), Err(DecodeError::MalformedRecord)));
    assert!(matches!(decode_block(&p[..79]), Err(DecodeError::MalformedRecord)));
    let mut q = p[..80].to_vec();
    q.push(3);
    assert!(matches!(decode_block(&q), Err(DecodeError::MalformedRecord)));
}

#[test]
fn truncated_archive_is_malformed() {
    let (p, _) = make_block(&[0u8; 32], &[make_tx(1)], 0);
    let mut f = frame(&p);
    f.truncate(f.len() - 10);
    assert_eq!(scan_records(&f), Err(DecodeError::MalformedRecord));
    let mut nodes = Vec::new();
    assert_eq!(scan_file_headers(0, &f, &mut nodes), Err(DecodeError::MalformedRecord));
    assert_eq!(scan_records(&[0xf9, 0xbe, 0xb4]), Err(DecodeError::MalformedRecord));
}

#[test]
fn unknown_magic_is_skipped() {
    let (p, _) = make_block(&[0u8; 32], &[make_tx(1)], 0);
    let mut f = vec![1, 2, 3, 4, 3, 0, 0, 0, 9, 9, 9];
    f.extend_from_slice(&frame(&p));
    f.extend_from_slice(&[0u8; 16]);
    let spans = scan_records(&f).unwrap();
    assert_eq!(spans, vec![RecordSpan { offset: 19, len: p.len() }]);
}

#[test]
fn merkle_root_pairs_and_duplicates_last() {
    let a = make_tx(1);
    let b = make_tx(2);
    let c = make_tx(3);
    let ia = double_sha256(&a);
    let ib = double_sha256(&b);
    let ic = double_sha256(&c);
    assert_eq!(root_of(&[a.clone()]), ia);
    let ab = double_sha256(&[ia.clone(), ib.clone()].concat());
    assert_eq!(root_of(&[a.clone(), b.clone()]), ab);
    let cc = double_sha256(&[ic.clone(), ic.clone()].concat());
    let top = double_sha256(&[ab.clone(), cc].concat());
    assert_eq!(root_of(&[a, b, c]), top);
    assert_eq!(root_of(&[]), vec![0u8; 32]);
}

#[test]
fn tampered_block_fails_verification() {
    let txs = vec![make_tx(1), make_tx(2)];
    let (mut p, h) = make_block(&[0u8; 32], &txs, 1);
    let last = p.len() - 5;
    p[last] ^= 1;
    let expected = HeaderNode {
        hash: read_hash(&h, 0),
        prev: Hash256 { w0: 0, w1: 0, w2: 0, w3: 0 },
        loc: BlockLocation { file_index: 0, offset: 8, len: p.len() as u64 },
    };
    assert!(matches!(decode_pending(&p, true, &expected), Err(EngineError::VerificationMismatch)));
    assert!(decode_pending(&p, false, &expected).is_ok());

    let mut st = ChainStorage::new();
    let f = frame(&p);
    let files = vec![f];
    run_header_scan(&mut st, &files).unwrap();
    assert_eq!(st.entries.len(), 1);
    let mut rec = Consumer::new(Recorder::new());
    assert_eq!(
        run_full_data(&mut st, &files, 0, true, &mut rec),
        Err(EngineError::VerificationMismatch)
    );
    assert!(rec.callback.heights.is_empty());
    assert_eq!(rec.log(), &vec![CallEvent::Start(true)]);
    assert_eq!(st.processed, 0);
}

#[test]
fn wrong_block_at_location_is_corrupt_chain() {
    let (p, _) = make_block(&[0u8; 32], &[make_tx(1)], 1);
    let other = node(5, 0);
    assert!(matches!(decode_pending(&p, true, &other), Err(EngineError::CorruptChain)));
}

#[test]
fn linear_chain_is_canonical() {
    let nodes: Vec<HeaderNode> = (0..6u64).map(|i| node(i + 1, i)).collect();
    assert_eq!(canonical_chain(&nodes), vec![0, 1, 2, 3, 4, 5]);
    assert_eq!(canonical_nodes(&nodes), nodes);
}

#[test]
fn longer_fork_wins() {
    // trunk 1 <- 2, branch A 3 <- 4 <- 5 on 2, branch B 6 on 2, orphan 9 <- 8
    let nodes = vec![
        node(1, 0),
        node(2, 1),
        node(6, 2),
        node(3, 2),
        node(8, 9),
        node(4, 3),
        node(5, 4),
    ];
    assert_eq!(canonical_chain(&nodes), vec![0, 1, 3, 5, 6]);
}

#[test]
fn equal_height_tips_prefer_earliest() {
    let nodes = vec![node(1, 0), node(2, 1), node(3, 1)];
    assert_eq!(canonical_chain(&nodes), vec![0, 1]);
    assert_eq!(canonical_chain(&Vec::new()), Vec::<usize>::new());
}

#[test]
fn storage_round_trip() {
    let nodes: Vec<HeaderNode> = (0..4u64).map(|i| node(i + 1, i)).collect();
    let mut st = ChainStorage::new();
    st.replace_chain(&nodes).unwrap();
    st.mark_processed();
    st.set_latest_blk_idx(7);
    let bytes = st.to_bytes();
    assert_eq!(bytes.len(), 8 * (3 + 11 * 4));
    let back = ChainStorage::from_bytes(&bytes).unwrap();
    assert_eq!(back.entries, nodes);
    assert_eq!(back.processed, 1);
    assert_eq!(back.latest_blk_idx, 7);
    assert_eq!(back.remaining(), 3);
    assert_eq!(back.get_cur_height(), 1);
}

#[test]
fn storage_rejects_corrupt_bytes() {
    assert_eq!(ChainStorage::from_bytes(&[1, 2, 3]).err(), Some(StorageError::CorruptState));
    let mut st = ChainStorage::new();
    st.replace_chain(&vec![node(1, 0)]).unwrap();
    let mut bytes = st.to_bytes();
    bytes[8 * 3 + 32] = 5;
    assert_eq!(ChainStorage::from_bytes(&bytes).err(), Some(StorageError::CorruptState));
}

#[test]
fn storage_extend_checks_links() {
    let mut st = ChainStorage::new();
    assert_eq!(st.extend(&vec![node(2, 1)]), Err(StorageError::CorruptChain));
    assert_eq!(st.extend(&vec![node(1, 0), node(2, 1)]), Ok(()));
    assert_eq!(st.extend(&vec![node(4, 3)]), Err(StorageError::CorruptChain));
    assert_eq!(st.entries.len(), 2);
}

#[test]
fn reorganization_truncates_to_fork_point() {
    let mut st = ChainStorage::new();
    st.replace_chain(&vec![node(1, 0), node(2, 1), node(3, 2)]).unwrap();
    st.mark_processed();
    st.mark_processed();
    st.mark_processed();
    let fork = st.replace_chain(&vec![node(1, 0), node(2, 1), node(7, 2), node(8, 7)]).unwrap();
    assert_eq!(fork, 2);
    assert_eq!(st.processed, 2);
    assert_eq!(st.remaining(), 2);
}

fn three_files() -> (Vec<Vec<u8>>, Vec<Vec<u8>>) {
    let chain = make_chain(6, &[0u8; 32], 0);
    let mut files = Vec::new();
    for k in 0..3 {
        let mut f = frame(&chain[2 * k].0);
        f.extend_from_slice(&frame(&chain[2 * k + 1].0));
        files.push(f);
    }
    (files, chain.into_iter().map(|c| c.1).collect())
}

#[test]
fn three_files_deliver_six_blocks_in_order() {
    let (files, hashes) = three_files();
    let mut st = ChainStorage::new();
    assert_eq!(next_action(0, false, &st), Action::ScanHeaders);
    run_header_scan(&mut st, &files).unwrap();
    assert_eq!(st.entries.len(), 6);
    assert_eq!(st.latest_blk_idx, 2);
    for (k, h) in hashes.iter().enumerate() {
        assert_eq!(st.entries[k].hash, read_hash(h, 0));
    }
    assert_eq!(next_action(1, false, &st), Action::DeliverBlocks { from: 0, to: 6 });
    let mut rec = Consumer::new(Recorder::new());
    assert_eq!(run_full_data(&mut st, &files, 0, true, &mut rec), Ok(6));
    assert_eq!(rec.callback.heights, vec![0, 1, 2, 3, 4, 5]);
    assert_eq!(rec.callback.events.first().unwrap(), "start");
    assert_eq!(rec.callback.events.last().unwrap(), "complete");
    assert_eq!(rec.callback.events.len(), 8);
    let mut expected = vec![CallEvent::Start(true)];
    for h in 0..6u64 {
        expected.push(CallEvent::Block(h, true));
    }
    expected.push(CallEvent::Complete(true));
    assert_eq!(rec.log(), &expected);
    assert_eq!(next_action(1, false, &st), Action::NothingToDo);
    assert_eq!(next_action(2, false, &st), Action::Done);
}

#[test]
fn split_phases_match_single_pass() {
    let (files, _) = three_files();
    let mut st = ChainStorage::new();
    run_header_scan(&mut st, &files).unwrap();
    let mut all = Vec::new();
    for (k, f) in files.iter().enumerate() {
        scan_file_headers(k as u64, f, &mut all).unwrap();
    }
    assert_eq!(scan_headers(&files, 0).unwrap(), all);
    assert_eq!(st.entries, canonical_nodes(&all));
}

#[test]
fn resume_delivers_only_the_rest() {
    let (files, _) = three_files();
    let mut st = ChainStorage::new();
    run_header_scan(&mut st, &files).unwrap();
    let mut first = Consumer::new(Recorder::new());
    first.callback.fail_at = Some(4);
    assert_eq!(run_full_data(&mut st, &files, 0, false, &mut first), Err(EngineError::BackendFailure));
    assert_eq!(first.callback.heights, vec![0, 1, 2, 3]);
    assert_eq!(first.log().last(), Some(&CallEvent::Block(4, false)));
    let saved = st.to_bytes();
    let mut again = load_chain_file(Some(&saved)).unwrap();
    assert_eq!(choose_mode(&again, true), ParseMode::HeaderOnly);
    run_header_scan(&mut again, &files).unwrap();
    assert_eq!(again.processed, 4);
    let mut second = Consumer::new(Recorder::new());
    assert_eq!(run_full_data(&mut again, &files, 0, false, &mut second), Ok(2));
    assert_eq!(second.callback.heights, vec![4, 5]);
}

#[test]
fn forked_archive_delivers_longer_branch_only() {
    let trunk = make_chain(2, &[0u8; 32], 0);
    let a = make_chain(3, &trunk[1].1, 1);
    let b = make_chain(1, &trunk[1].1, 2);
    let mut f = Vec::new();
    for blk in [&trunk[0], &trunk[1], &b[0], &a[0], &a[1], &a[2]] {
        f.extend_from_slice(&frame(&blk.0));
    }
    let files = vec![f];
    let mut st = ChainStorage::new();
    run_header_scan(&mut st, &files).unwrap();
    assert_eq!(st.entries.len(), 5);
    assert_eq!(st.entries[2].hash, read_hash(&a[0].1, 0));
    assert!(st.entries.iter().all(|e| e.hash != read_hash(&b[0].1, 0)));
    let mut rec = Consumer::new(Recorder::new());
    assert_eq!(run_full_data(&mut st, &files, 0, true, &mut rec), Ok(5));
}

#[test]
fn mode_and_start_file() {
    let mut st = ChainStorage::new();
    assert_eq!(choose_mode(&st, false), ParseMode::HeaderOnly);
    st.replace_chain(&vec![node(1, 0)]).unwrap();
    st.set_latest_blk_idx(3);
    assert_eq!(choose_mode(&st, false), ParseMode::FullData);
    assert_eq!(choose_mode(&st, true), ParseMode::HeaderOnly);
    assert_eq!(start_file_index(ParseMode::FullData, &st), 3);
    assert_eq!(start_file_index(ParseMode::HeaderOnly, &st), 0);
    assert_eq!(next_action(0, true, &st), Action::ScanHeaders);
}

#[test]
fn chain_file_loading() {
    let d = ChainStorage::default();
    assert_eq!(d.entries.len(), 0);
    assert_eq!(d.latest_blk_idx, 0);
    let st = load_chain_file(None).unwrap();
    assert_eq!(st.entries.len(), 0);
    assert_eq!(st.processed, 0);
    assert_eq!(load_chain_file(Some(&[0u8; 5])).err(), Some(StorageError::CorruptState));
}

fn options(callback: &str, new: bool, resume: bool, backlog: usize) -> ParserOptions {
    ParserOptions {
        callback: callback.to_string(),
        callback_args: Vec::new(),
        verify_merkle_root: false,
        thread_count: 2,
        resume,
        new,
        blockchain_dir: "./blocks".to_string(),
        chain_storage_path: "./chain.json".to_string(),
        worker_backlog: backlog,
        verbose: false,
        debug: false,
    }
}

#[test]
fn option_rules() {
    assert_eq!(options("csvdump", false, false, 100).validate(), Ok(()));
    assert_eq!(options("simplestats", false, true, 1).validate(), Ok(()));
    assert_eq!(options("csvdump", true, true, 100).validate(), Err(ConfigError::NewAndResume));
    assert_eq!(options("other", false, false, 100).validate(), Err(ConfigError::UnknownCallback));
    assert_eq!(options("csvdump", false, false, 0).validate(), Ok(()));
}

#[test]
fn callbacks_are_listed() {
    let s = list_callbacks();
    assert!(s.starts_with("Available Callbacks:\n"));
    assert!(s.contains("csvdump"));
    assert!(s.contains("simplestats"));
}

#[test]
fn archive_names_and_order() {
    assert_eq!(parse_blk_index("blk00012.dat"), Some(12));
    assert_eq!(parse_blk_index("blk99999.dat"), Some(99999));
    assert_eq!(parse_blk_index("blk0001.dat"), None);
    assert_eq!(parse_blk_index("rev00000.dat"), None);
    assert_eq!(parse_blk_index("blk0000a.dat"), None);
    let names: Vec<String> = ["blk00001.dat", "blk00000.dat", "notes.txt", "blk00003.dat"]
        .iter()
        .map(|s| s.to_string())
        .collect();
    assert_eq!(archive_indices(&names, 0), vec![0, 1]);
    assert_eq!(archive_indices(&names, 1), vec![1]);
    assert_eq!(archive_indices(&names, 3), vec![3]);
    assert_eq!(archive_indices(&names, 2), Vec::<u64>::new());
}

#[test]
fn unreadable_location_is_malformed() {
    let (files, _) = three_files();
    let mut st = ChainStorage::new();
    run_header_scan(&mut st, &files).unwrap();
    let short = vec![files[0].clone()];
    let mut rec = Consumer::new(Recorder::new());
    assert_eq!(
        run_full_data(&mut st, &short, 0, false, &mut rec),
        Err(EngineError::MalformedRecord)
    );
    assert_eq!(rec.callback.heights, vec![0, 1]);
    assert_eq!(st.processed, 2);
}

#[test]
fn empty_pass_still_completes() {
    let mut st = ChainStorage::new();
    let mut rec = Consumer::new(Recorder::new());
    assert_eq!(run_full_data(&mut st, &Vec::new(), 0, true, &mut rec), Ok(0));
    assert_eq!(rec.callback.events, vec!["start".to_string(), "complete".to_string()]);
}
