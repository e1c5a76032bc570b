use num_bigint::BigInt;
use num_bigint::Sign;
use poolwatch::Config;
use poolwatch::ConfirmedBlock;
use poolwatch::PendingBlockStore;
use poolwatch::RawLog;
use poolwatch::decode_logs;
use poolwatch::format_block_report;
use poolwatch::header_identity;
use poolwatch::sweep_cutoff;

fn word_from_bigint(v: &BigInt) -> Vec<u8> {
    let wrap = BigInt::from(1u8) << 256u32;
    let adjusted = if v.sign() == Sign::Minus { v + &wrap } else { v.clone() };
    let (_, bytes) = adjusted.to_bytes_be();
    assert!(bytes.len() <= 32);
    let mut out = vec![0u8; 32 - bytes.len()];
    out.extend_from_slice(&bytes);
    out
}

fn hash_of(i: u8) -> Vec<u8> {
    vec![i; 32]
}

fn empty_block(n: u64, h: Vec<u8>) -> ConfirmedBlock {
    ConfirmedBlock { number: n, hash: h, events: Vec::new() }
}

#[test]
fn cutoff_at_depth() {
    assert_eq!(sweep_cutoff(10, 5), Some(5));
    assert_eq!(sweep_cutoff(5, 5), Some(0));
    assert_eq!(sweep_cutoff(4, 5), None);
}

#[test]
fn incomplete_headers_are_skipped() {
    assert!(header_identity(None, Some(3)).is_none());
    assert!(header_identity(Some(hash_of(1)), None).is_none());
    let (h, n) = header_identity(Some(hash_of(1)), Some(3)).expect("complete header");
    assert_eq!(h, hash_of(1));
    assert_eq!(n, 3);
}

#[test]
fn insert_replaces_same_number() {
    let mut store = PendingBlockStore::new();
    store.insert(empty_block(7, hash_of(1)));
    store.insert(empty_block(7, hash_of(2)));
    assert_eq!(store.len(), 1);
    // The stored hash is now the second one: the first no longer matches.
    let r = store.resolve_candidate(7, Some(hash_of(1)));
    assert!(r.is_err());
    let r2 = store.resolve_candidate(7, Some(hash_of(2)));
    let rec = r2.expect("no reorg").expect("confirmed");
    assert_eq!(rec.hash, hash_of(2));
}

#[test]
fn sweep_selects_only_deep_blocks() {
    let mut store = PendingBlockStore::new();
    for n in 1..=10u64 {
        store.insert(empty_block(n, hash_of(n as u8)));
    }
    let cutoff = sweep_cutoff(10, 5).expect("head past depth");
    let cands = store.candidates(cutoff);
    assert_eq!(cands, vec![1, 2, 3, 4, 5]);
}

#[test]
fn unavailable_canonical_block_stays_pending() {
    let mut store = PendingBlockStore::new();
    for n in 1..=10u64 {
        store.insert(empty_block(n, hash_of(n as u8)));
    }
    let cutoff = sweep_cutoff(10, 5).expect("head past depth");
    for _round in 0..3 {
        for n in store.candidates(cutoff) {
            let r = store.resolve_candidate(n, None);
            assert!(matches!(r, Ok(None)));
        }
        assert_eq!(store.len(), 10);
        assert_eq!(store.candidates(cutoff), vec![1, 2, 3, 4, 5]);
    }
}

#[test]
fn reorg_is_fatal_and_reported() {
    let mut store = PendingBlockStore::new();
    store.insert(empty_block(3, hash_of(3)));
    let err = store.resolve_candidate(3, Some(hash_of(9))).expect_err("hash mismatch");
    assert_eq!(err.number, 3);
    assert_eq!(err.expected, hash_of(3));
    assert_eq!(err.got, hash_of(9));
    // The pipeline halts; the record was not released.
    assert_eq!(store.len(), 1);
}

#[test]
fn matching_hash_confirms_and_removes() {
    let mut store = PendingBlockStore::new();
    store.insert(empty_block(3, hash_of(3)));
    store.insert(empty_block(4, hash_of(4)));
    let rec = store.resolve_candidate(3, Some(hash_of(3))).expect("no reorg").expect("confirmed");
    assert_eq!(rec.number, 3);
    assert_eq!(store.len(), 1);
    assert!(matches!(store.resolve_candidate(3, Some(hash_of(3))), Ok(None)));
}

#[test]
fn report_of_empty_block() {
    let rec = empty_block(7, hash_of(7));
    let lines = format_block_report(&rec, 18, 6);
    assert_eq!(lines, vec!["Block 7: No swap events".to_string()]);
}

#[test]
fn end_to_end_confirms_first_block() {
    let sender = [0x55u8; 20];
    let receiver = [0x66u8; 20];
    let a0 = BigInt::from(100) * BigInt::from(10u32).pow(18);
    let a1 = BigInt::from(-50) * BigInt::from(10u32).pow(6);
    let swap_log = || {
        let mut data = word_from_bigint(&a0);
        data.extend_from_slice(&word_from_bigint(&a1));
        let mut topic1 = vec![0u8; 12];
        topic1.extend_from_slice(&sender);
        let mut topic2 = vec![0u8; 12];
        topic2.extend_from_slice(&receiver);
        RawLog { topics: vec![vec![0u8; 32], topic1, topic2], data }
    };

    let mut store = PendingBlockStore::new();
    let mut reported: Vec<String> = Vec::new();
    for n in 1..=6u64 {
        let logs = if n == 1 { vec![swap_log()] } else { Vec::new() };
        store.process_header(n, hash_of(n as u8), &logs);
        if let Some(cutoff) = sweep_cutoff(n, 5) {
            for cand in store.candidates(cutoff) {
                // The canonical chain agrees with every stored hash here.
                let resolved = store
                    .resolve_candidate(cand, Some(hash_of(cand as u8)))
                    .expect("no reorg");
                if let Some(rec) = resolved {
                    for line in format_block_report(&rec, 18, 6) {
                        reported.push(line);
                    }
                }
            }
        }
    }
    let expected = format!(
        "Block 1 | Swap asset0→asset1: sender: 0x{}, receiver: 0x{}, amount0: 100, amount1: -50",
        hex::encode(sender),
        hex::encode(receiver)
    );
    assert_eq!(reported, vec![expected]);
    // Block 1 left the buffer; blocks 2 through 6 are still pending.
    assert_eq!(store.len(), 5);
    assert_eq!(store.candidates(6), vec![2, 3, 4, 5, 6]);
}

#[test]
fn decode_logs_of_empty_list() {
    let events = decode_logs(&Vec::new());
    assert!(events.is_empty());
}

#[test]
fn config_holds_parameters() {
    let c = Config::new(
        "ws://localhost:8546".to_string(),
        "0011223344556677889900112233445566778899".to_string(),
    );
    assert_eq!(c.pool_contract_address.len(), 40);
    assert!(!c.eth_node_url.is_empty());
}
