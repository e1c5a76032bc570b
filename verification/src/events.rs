//! Raw event logs and their decoding into swap events.

use vstd::prelude::*;
use crate::amount::Int256;
use crate::amount::word_signed_value;
use vstd::slice::slice_subrange;
use vstd::slice::slice_to_vec;

verus! {

/// One raw event log as fetched from the chain: the indexed 32-byte topic
/// words and the data payload.
pub struct RawLog {
    pub topics: Vec<Vec<u8>>,
    pub data: Vec<u8>,
}

impl RawLog {
    /// Topic words are 32 bytes each.
    pub open spec fn wf(self) -> bool {
        forall|i: int| 0 <= i < self.topics@.len() ==> (#[trigger] self.topics@[i])@.len() == 32
    }
}

/// A decoded swap: the two addresses and the two signed amounts.
#[derive(Debug)]
pub struct SwapEvent {
    pub sender: Vec<u8>,
    pub receiver: Vec<u8>,
    pub amount0: Int256,
    pub amount1: Int256,
}

/// The mathematical content of a swap event.
pub ghost struct SwapView {
    pub sender: Seq<u8>,
    pub receiver: Seq<u8>,
    pub amount0: int,
    pub amount1: int,
}

impl View for SwapEvent {
    type V = SwapView;

    open spec fn view(&self) -> SwapView {
        SwapView {
            sender: self.sender@,
            receiver: self.receiver@,
            amount0: self.amount0.value(),
            amount1: self.amount1.value(),
        }
    }
}

impl SwapEvent {
    pub open spec fn wf(self) -> bool {
        &&& self.sender@.len() == 20
        &&& self.receiver@.len() == 20
        &&& self.amount0.wf()
        &&& self.amount1.wf()
    }
}

/// Whether a log decodes as a swap: at least three topic words, and a data
/// payload long enough for two 32-byte integer words (trailing bytes are
/// ignored).
pub open spec fn decodes(log: RawLog) -> bool {
    log.topics@.len() >= 3 && log.data@.len() >= 64
}

/// What a decodable log decodes to: the addresses are the low 20 bytes of the
/// second and third topic words, the amounts the two leading data words read
/// as two's-complement signed 256-bit integers.
pub open spec fn log_swap_view(log: RawLog) -> SwapView {
    SwapView {
        sender: log.topics@[1]@.subrange(12, 32),
        receiver: log.topics@[2]@.subrange(12, 32),
        amount0: word_signed_value(log.data@.subrange(0, 32)),
        amount1: word_signed_value(log.data@.subrange(32, 64)),
    }
}

/// A fresh copy of the given range of a byte vector.
fn bytes_range(b: &Vec<u8>, start: usize, end: usize) -> (r: Vec<u8>)
    requires
        start <= end <= b@.len(),
    ensures
        r@ == b@.subrange(start as int, end as int),
{
    slice_to_vec(slice_subrange(b.as_slice(), start, end))
}

/// Decodes one log into a swap event; a log with fewer than three topics or
/// with a data payload too short for two integer words is skipped.
pub fn decode_swap_event(log: &RawLog) -> (r: Option<SwapEvent>)
    requires
        log.wf(),
    ensures
        (r is Some) == decodes(*log),
        r is Some ==> r.unwrap().wf() && r.unwrap()@ == log_swap_view(*log),
{
    if log.topics.len() < 3 {
        return None;
    }
    if log.data.len() < 64 {
        return None;
    }
    let sender = bytes_range(&log.topics[1], 12, 32);
    let receiver = bytes_range(&log.topics[2], 12, 32);
    let word0 = bytes_range(&log.data, 0, 32);
    let word1 = bytes_range(&log.data, 32, 64);
    let amount0 = Int256::from_be_bytes(&word0);
    let amount1 = Int256::from_be_bytes(&word1);
    Some(SwapEvent { sender, receiver, amount0, amount1 })
}

/// Decodes a block's logs in order, dropping those that do not decode.
pub fn decode_logs(logs: &Vec<RawLog>) -> (r: Vec<SwapEvent>)
    requires
        forall|i: int| 0 <= i < logs@.len() ==> (#[trigger] logs@[i]).wf(),
    ensures
        forall|i: int| 0 <= i < r@.len() ==> (#[trigger] r@[i]).wf(),
        r@.map_values(|e: SwapEvent| e@) == logs@.filter(|l: RawLog| decodes(l)).map_values(
            |l: RawLog| log_swap_view(l),
        ),
{
    let ghost dec = |l: RawLog| decodes(l);
    let ghost ev = |e: SwapEvent| e@;
    let ghost lv = |l: RawLog| log_swap_view(l);
    let mut out: Vec<SwapEvent> = Vec::new();
    let mut i: usize = 0;
    proof {
        assert(logs@.take(0) =~= Seq::<RawLog>::empty());
        reveal(Seq::filter);
        assert(out@.map_values(ev) =~~= logs@.take(0).filter(dec).map_values(lv));
    }
    while i < logs.len()
        invariant
            i <= logs@.len(),
            forall|j: int| 0 <= j < logs@.len() ==> (#[trigger] logs@[j]).wf(),
            forall|j: int| 0 <= j < out@.len() ==> (#[trigger] out@[j]).wf(),
            dec == (|l: RawLog| decodes(l)),
            ev == (|e: SwapEvent| e@),
            lv == (|l: RawLog| log_swap_view(l)),
            out@.map_values(ev) == logs@.take(i as int).filter(dec).map_values(lv),
        decreases logs@.len() - i,
    {
        let ghost pre = out@;
        proof {
            reveal(Seq::filter);
            assert(logs@.take(i + 1).drop_last() =~= logs@.take(i as int));
            assert(logs@.take(i + 1).last() == logs@[i as int]);
        }
        match decode_swap_event(&logs[i]) {
            Some(e) => {
                proof {
                    reveal(Seq::filter);
                    assert(e@ == log_swap_view(logs@[i as int]));
                    assert(logs@.take(i + 1).filter(dec) =~= logs@.take(i as int).filter(dec).push(
                        logs@[i as int],
                    ));
                }
                out.push(e);
                proof {
                    reveal(Seq::filter);
                    assert(out@ == pre.push(e));
                    let lhs = out@.map_values(ev);
                    let rhs = logs@.take(i + 1).filter(dec).map_values(lv);
                    assert(out@.len() == pre.len() + 1);
                    assert(lhs.len() == out@.len());
                    assert(rhs.len() == logs@.take(i + 1).filter(dec).len());
                    assert(pre.map_values(ev) == logs@.take(i as int).filter(dec).map_values(lv));
                    assert(pre.map_values(ev).len() == pre.len());
                    assert(logs@.take(i + 1).filter(dec).len() == logs@.take(i as int).filter(
                        dec,
                    ).len() + 1);
                    assert(lhs.len() == rhs.len());
                    assert forall|j: int| 0 <= j < lhs.len() implies lhs[j] == rhs[j] by {
                        if j < lhs.len() - 1 {
                            assert(lhs[j] == pre.map_values(ev)[j]);
                            assert(rhs[j] == logs@.take(i as int).filter(dec).map_values(lv)[j]);
                        } else {
                            assert(lhs[j] == ev(e));
                            assert(rhs[j] == lv(logs@[i as int]));
                        }
                    }
                    assert(lhs =~= rhs);
                }
            },
            None => {
                proof {
                    reveal(Seq::filter);
                    assert(logs@.take(i + 1).filter(dec) =~= logs@.take(i as int).filter(dec));
                    assert(out@.map_values(ev) =~~= logs@.take(i + 1).filter(dec).map_values(lv));
                }
            },
        }
        i = i + 1;
    }
    proof {
        assert(logs@.take(logs@.len() as int) =~= logs@);
    }
    out
}

} // verus!
