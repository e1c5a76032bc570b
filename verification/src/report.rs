//! Formatting confirmed blocks into report lines.

use vstd::prelude::*;
use vstd::string::StringExecFns;
use crate::amount::Int256;
use crate::amount::dec_str;
use crate::amount::render_spec;
use crate::events::SwapEvent;
use crate::events::SwapView;
use crate::store::ConfirmedBlock;

verus! {

/// The direction of a swap, read off the signs of its two amounts.
#[derive(Clone, Copy, Debug, PartialEq, Eq, Structural)]
pub enum Direction {
    Asset0ToAsset1,
    Asset1ToAsset0,
    Unknown,
}

/// A positive first and negative second amount moves asset0 into asset1, the
/// opposite signs move asset1 into asset0; every other sign combination,
/// zeros included, is unknown.
pub open spec fn direction_spec(a0: int, a1: int) -> Direction {
    if a0 > 0 && a1 < 0 {
        Direction::Asset0ToAsset1
    } else if a0 < 0 && a1 > 0 {
        Direction::Asset1ToAsset0
    } else {
        Direction::Unknown
    }
}

pub open spec fn direction_label_spec(d: Direction) -> Seq<char> {
    match d {
        Direction::Asset0ToAsset1 => "asset0→asset1"@,
        Direction::Asset1ToAsset0 => "asset1→asset0"@,
        Direction::Unknown => "Unknown"@,
    }
}

pub fn classify_direction(amount0: &Int256, amount1: &Int256) -> (r: Direction)
    requires
        amount0.wf(),
        amount1.wf(),
    ensures
        r == direction_spec(amount0.value(), amount1.value()),
{
    if amount0.is_positive() && amount1.is_negative() {
        Direction::Asset0ToAsset1
    } else if amount0.is_negative() && amount1.is_positive() {
        Direction::Asset1ToAsset0
    } else {
        Direction::Unknown
    }
}

pub fn direction_label(d: Direction) -> (r: &'static str)
    ensures
        r@ == direction_label_spec(d),
{
    match d {
        Direction::Asset0ToAsset1 => "asset0→asset1",
        Direction::Asset1ToAsset0 => "asset1→asset0",
        Direction::Unknown => "Unknown",
    }
}

/// The character of one hexadecimal digit.
pub open spec fn nibble_char(d: int) -> char {
    if d < 10 {
        crate::amount::digit_char(d)
    } else if d == 10 {
        'a'
    } else if d == 11 {
        'b'
    } else if d == 12 {
        'c'
    } else if d == 13 {
        'd'
    } else if d == 14 {
        'e'
    } else {
        'f'
    }
}

/// Lower-case hexadecimal of a byte string, two characters per byte.
pub open spec fn hex_of(s: Seq<u8>) -> Seq<char>
    decreases s.len(),
{
    if s.len() == 0 {
        Seq::empty()
    } else {
        hex_of(s.drop_last()) + seq![
            nibble_char(s.last() as int / 16),
            nibble_char(s.last() as int % 16),
        ]
    }
}

/// The one-character string of a hexadecimal digit.
fn nibble_str(d: u8) -> (r: &'static str)
    requires
        d < 16,
    ensures
        r@ == seq![nibble_char(d as int)],
{
    if d < 10 {
        crate::amount::digit_str(d as u64)
    } else {
        proof {
            reveal_strlit("a");
            reveal_strlit("b");
            reveal_strlit("c");
            reveal_strlit("d");
            reveal_strlit("e");
            reveal_strlit("f");
        }
        if d == 10 {
            "a"
        } else if d == 11 {
            "b"
        } else if d == 12 {
            "c"
        } else if d == 13 {
            "d"
        } else if d == 14 {
            "e"
        } else {
            "f"
        }
    }
}

/// Appends the lower-case hexadecimal of a byte string.
fn append_hex(s: &mut String, bytes: &Vec<u8>)
    ensures
        final(s)@ == old(s)@ + hex_of(bytes@),
{
    let ghost base = old(s)@;
    let n = bytes.len();
    let mut i: usize = 0;
    proof {
        assert(bytes@.take(0) =~= Seq::<u8>::empty());
        assert(s@ =~= base + hex_of(bytes@.take(0)));
    }
    while i < n
        invariant
            n == bytes@.len(),
            i <= n,
            s@ == base + hex_of(bytes@.take(i as int)),
        decreases n - i,
    {
        let b = bytes[i];
        s.append(nibble_str(b / 16));
        s.append(nibble_str(b % 16));
        proof {
            assert(bytes@.take(i + 1).drop_last() =~= bytes@.take(i as int));
            assert(bytes@.take(i + 1).last() == bytes@[i as int]);
            assert(s@ =~= base + hex_of(bytes@.take(i + 1)));
        }
        i = i + 1;
    }
    proof {
        assert(bytes@.take(n as int) =~= bytes@);
    }
}

/// The decimal string of a block number.
pub fn u64_to_dec(n: u64) -> (r: String)
    ensures
        r@ == dec_str(n as int),
{
    Int256::from_u64(n).to_decimal_string()
}

/// The report line of one swap event.
pub open spec fn event_line_spec(number: u64, v: SwapView, d0: nat, d1: nat) -> Seq<char> {
    "Block "@ + dec_str(number as int) + " | Swap "@ + direction_label_spec(
        direction_spec(v.amount0, v.amount1),
    ) + ": sender: 0x"@ + hex_of(v.sender) + ", receiver: 0x"@ + hex_of(v.receiver)
        + ", amount0: "@ + render_spec(v.amount0, d0) + ", amount1: "@ + render_spec(v.amount1, d1)
}

/// The report line of a confirmed block without swap events.
pub open spec fn empty_block_line_spec(number: u64) -> Seq<char> {
    "Block "@ + dec_str(number as int) + ": No swap events"@
}

/// The report of one confirmed block: one line for each event in log order,
/// or the single no-events line.
pub open spec fn report_lines_spec(b: ConfirmedBlock, d0: nat, d1: nat) -> Seq<Seq<char>> {
    if b.events@.len() == 0 {
        seq![empty_block_line_spec(b.number)]
    } else {
        b.events@.map_values(|e: SwapEvent| event_line_spec(b.number, e@, d0, d1))
    }
}

/// The report line of one event of a block.
pub fn format_event_line(number: u64, e: &SwapEvent, decimals0: u32, decimals1: u32) -> (r: String)
    requires
        e.wf(),
    ensures
        r@ == event_line_spec(number, e@, decimals0 as nat, decimals1 as nat),
{
    let mut s = String::from_str("Block ");
    let num = u64_to_dec(number);
    s.append(num.as_str());
    s.append(" | Swap ");
    s.append(direction_label(classify_direction(&e.amount0, &e.amount1)));
    s.append(": sender: 0x");
    append_hex(&mut s, &e.sender);
    s.append(", receiver: 0x");
    append_hex(&mut s, &e.receiver);
    s.append(", amount0: ");
    let a0 = e.amount0.render(decimals0);
    s.append(a0.as_str());
    s.append(", amount1: ");
    let a1 = e.amount1.render(decimals1);
    s.append(a1.as_str());
    proof {
        assert(s@ =~= event_line_spec(number, e@, decimals0 as nat, decimals1 as nat));
    }
    s
}

/// The full report of a confirmed block, one string per line.
pub fn format_block_report(block: &ConfirmedBlock, decimals0: u32, decimals1: u32) -> (r: Vec<
    String,
>)
    requires
        block.wf(),
    ensures
        r@.map_values(|s: String| s@) == report_lines_spec(
            *block,
            decimals0 as nat,
            decimals1 as nat,
        ),
{
    let ghost sv = |s: String| s@;
    let mut out: Vec<String> = Vec::new();
    if block.events.len() == 0 {
        let mut s = String::from_str("Block ");
        let num = u64_to_dec(block.number);
        s.append(num.as_str());
        s.append(": No swap events");
        proof {
            assert(s@ =~= empty_block_line_spec(block.number));
        }
        out.push(s);
        proof {
            assert(out@.map_values(sv) =~= report_lines_spec(
                *block,
                decimals0 as nat,
                decimals1 as nat,
            ));
        }
        return out;
    }
    let ghost el = |e: SwapEvent| event_line_spec(block.number, e@, decimals0 as nat, decimals1 as nat);
    let n = block.events.len();
    let mut i: usize = 0;
    while i < n
        invariant
            n == block.events@.len(),
            i <= n,
            block.wf(),
            el == (|e: SwapEvent| event_line_spec(
                block.number,
                e@,
                decimals0 as nat,
                decimals1 as nat,
            )),
            sv == (|s: String| s@),
            out@.map_values(sv) == block.events@.take(i as int).map_values(el),
        decreases n - i,
    {
        let line = format_event_line(block.number, &block.events[i], decimals0, decimals1);
        let ghost pre = out@;
        out.push(line);
        proof {
            assert(block.events@.take(i + 1) =~= block.events@.take(i as int).push(
                block.events@[i as int],
            ));
            let lhs = out@.map_values(sv);
            let rhs = block.events@.take(i + 1).map_values(el);
            assert(pre.map_values(sv) == block.events@.take(i as int).map_values(el));
            assert(pre.map_values(sv).len() == pre.len());
            assert(lhs.len() == rhs.len());
            assert forall|j: int| 0 <= j < lhs.len() implies lhs[j] == rhs[j] by {
                if j < lhs.len() - 1 {
                    assert(lhs[j] == pre.map_values(sv)[j]);
                    assert(rhs[j] == block.events@.take(i as int).map_values(el)[j]);
                } else {
                    assert(lhs[j] == sv(line));
                    assert(rhs[j] == el(block.events@[i as int]));
                }
            }
            assert(lhs =~= rhs);
        }
        i = i + 1;
    }
    proof {
        assert(block.events@.take(n as int) =~= block.events@);
        assert(out@.map_values(sv) =~= report_lines_spec(
            *block,
            decimals0 as nat,
            decimals1 as nat,
        ));
    }
    out
}

} // verus!
