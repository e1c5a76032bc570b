use num_bigint::BigInt;
use num_bigint::Sign;
use poolwatch::Int256;
use poolwatch::RawLog;
use poolwatch::classify_direction;
use poolwatch::decode_logs;
use poolwatch::decode_swap_event;
use poolwatch::direction_label;

fn word_from_bigint(v: &BigInt) -> Vec<u8> {
    let wrap = BigInt::from(1u8) << 256u32;
    let adjusted = if v.sign() == Sign::Minus { v + &wrap } else { v.clone() };
    let (_, bytes) = adjusted.to_bytes_be();
    assert!(bytes.len() <= 32);
    let mut out = vec![0u8; 32 - bytes.len()];
    out.extend_from_slice(&bytes);
    out
}

fn int256_of(v: &BigInt) -> Int256 {
    Int256::from_be_bytes(&word_from_bigint(v))
}

fn topic_with_address(addr: &[u8; 20]) -> Vec<u8> {
    let mut t = vec![0u8; 12];
    t.extend_from_slice(addr);
    t
}

fn swap_log(sender: &[u8; 20], receiver: &[u8; 20], amount0: &BigInt, amount1: &BigInt) -> RawLog {
    let mut data = word_from_bigint(amount0);
    data.extend_from_slice(&word_from_bigint(amount1));
    RawLog {
        topics: vec![vec![0u8; 32], topic_with_address(sender), topic_with_address(receiver)],
        data,
    }
}

#[test]
fn decode_skips_short_topics() {
    let log = RawLog { topics: vec![vec![0u8; 32], vec![0u8; 32]], data: vec![0u8; 64] };
    assert!(decode_swap_event(&log).is_none());
}

#[test]
fn decode_skips_short_data() {
    let log = RawLog {
        topics: vec![vec![0u8; 32], vec![0u8; 32], vec![0u8; 32]],
        data: vec![0u8; 63],
    };
    assert!(decode_swap_event(&log).is_none());
    let empty = RawLog {
        topics: vec![vec![0u8; 32], vec![0u8; 32], vec![0u8; 32]],
        data: Vec::new(),
    };
    assert!(decode_swap_event(&empty).is_none());
}

#[test]
fn decode_reads_addresses_and_amounts() {
    let sender = [0xAAu8; 20];
    let receiver = [0xBBu8; 20];
    let a0 = BigInt::from(100) * BigInt::from(10u32).pow(18);
    let a1 = BigInt::from(-50) * BigInt::from(10u32).pow(6);
    let log = swap_log(&sender, &receiver, &a0, &a1);
    let e = decode_swap_event(&log).expect("log should decode");
    assert_eq!(e.sender, sender.to_vec());
    assert_eq!(e.receiver, receiver.to_vec());
    assert_eq!(e.amount0.to_decimal_string(), a0.to_string());
    assert_eq!(e.amount1.to_decimal_string(), a1.to_string());
}

#[test]
fn decode_ignores_trailing_data() {
    let sender = [1u8; 20];
    let receiver = [2u8; 20];
    let mut log = swap_log(&sender, &receiver, &BigInt::from(7), &BigInt::from(-7));
    log.data.extend_from_slice(&[0xFFu8; 32]);
    let e = decode_swap_event(&log).expect("log should decode");
    assert_eq!(e.amount0.to_decimal_string(), "7");
    assert_eq!(e.amount1.to_decimal_string(), "-7");
}

#[test]
fn decode_logs_keeps_order_and_drops_malformed() {
    let s = [3u8; 20];
    let r = [4u8; 20];
    let good1 = swap_log(&s, &r, &BigInt::from(1), &BigInt::from(-1));
    let bad = RawLog { topics: vec![vec![0u8; 32]], data: vec![0u8; 64] };
    let good2 = swap_log(&s, &r, &BigInt::from(2), &BigInt::from(-2));
    let events = decode_logs(&vec![good1, bad, good2]);
    assert_eq!(events.len(), 2);
    assert_eq!(events[0].amount0.to_decimal_string(), "1");
    assert_eq!(events[1].amount0.to_decimal_string(), "2");
}

#[test]
fn direction_classification() {
    let pos100 = int256_of(&BigInt::from(100));
    let neg50 = int256_of(&BigInt::from(-50));
    let zero = int256_of(&BigInt::from(0));
    assert_eq!(direction_label(classify_direction(&pos100, &neg50)), "asset0→asset1");
    let pos100b = int256_of(&BigInt::from(100));
    let neg50b = int256_of(&BigInt::from(-50));
    assert_eq!(direction_label(classify_direction(&neg50b, &pos100b)), "asset1→asset0");
    let zero2 = int256_of(&BigInt::from(0));
    assert_eq!(direction_label(classify_direction(&zero, &zero2)), "Unknown");
}

#[test]
fn direction_same_signs_unknown() {
    let a = int256_of(&BigInt::from(5));
    let b = int256_of(&BigInt::from(5));
    assert_eq!(direction_label(classify_direction(&a, &b)), "Unknown");
    let c = int256_of(&BigInt::from(-5));
    let d = int256_of(&BigInt::from(-5));
    assert_eq!(direction_label(classify_direction(&c, &d)), "Unknown");
}
