//! The buffer of not-yet-confirmed blocks: an ordered map from block number
//! to the record observed for that number, held as a vector sorted by number.

use vstd::prelude::*;
use crate::events::RawLog;
use crate::events::SwapEvent;
use crate::events::SwapView;
use crate::events::decode_logs;
use crate::events::decodes;
use crate::events::log_swap_view;

verus! {

/// Raised when the canonical chain disagrees with a stored hash for a block
/// past the confirmation depth: a reorganization deeper than the policy
/// tolerates, fatal for the whole pipeline.
#[derive(Debug)]
pub struct ReorgDetected {
    pub number: u64,
    pub expected: Vec<u8>,
    pub got: Vec<u8>,
}

/// The sweep cutoff for a head number: stored blocks at or below it have
/// reached the confirmation depth. A head below the depth yields none.
pub fn sweep_cutoff(head: u64, depth: u64) -> (r: Option<u64>)
    ensures
        head >= depth ==> r == Some((head - depth) as u64),
        head < depth ==> r is None,
{
    if head >= depth {
        Some(head - depth)
    } else {
        None
    }
}

/// The identity of an incoming header, if it is complete: a header missing
/// its hash or its number does not enter the store.
pub fn header_identity(hash: Option<Vec<u8>>, number: Option<u64>) -> (r: Option<(Vec<u8>, u64)>)
    ensures
        (r is Some) <==> (hash is Some && number is Some),
        r is Some ==> r.unwrap().0@ == hash.unwrap()@ && r.unwrap().1 == number.unwrap(),
{
    match (hash, number) {
        (Some(h), Some(n)) => Some((h, n)),
        _ => None,
    }
}

/// Byte-string equality.
fn bytes_eq(a: &Vec<u8>, b: &Vec<u8>) -> (r: bool)
    ensures
        r == (a@ == b@),
{
    let n = a.len();
    if n != b.len() {
        return false;
    }
    let mut i: usize = 0;
    while i < n
        invariant
            n == a@.len(),
            n == b@.len(),
            i <= n,
            forall|t: int| 0 <= t < i ==> a@[t] == b@[t],
        decreases n - i,
    {
        if a[i] != b[i] {
            return false;
        }
        i = i + 1;
    }
    proof {
        assert(a@ =~= b@);
    }
    true
}

/// A fresh copy of a byte string.
fn bytes_clone(b: &Vec<u8>) -> (r: Vec<u8>)
    ensures
        r@ == b@,
{
    let n = b.len();
    let mut out: Vec<u8> = Vec::new();
    let mut i: usize = 0;
    while i < n
        invariant
            n == b@.len(),
            i <= n,
            out@ == b@.subrange(0, i as int),
        decreases n - i,
    {
        out.push(b[i]);
        proof {
            assert(out@ =~= b@.subrange(0, i + 1));
        }
        i = i + 1;
    }
    proof {
        assert(out@ =~= b@);
    }
    out
}

/// One buffered block: the number and hash observed when its logs were
/// fetched, and its decoded swap events in log order.
#[derive(Debug)]
pub struct ConfirmedBlock {
    pub number: u64,
    pub hash: Vec<u8>,
    pub events: Vec<SwapEvent>,
}

impl ConfirmedBlock {
    pub open spec fn wf(self) -> bool {
        &&& self.hash@.len() == 32
        &&& forall|i: int| 0 <= i < self.events@.len() ==> (#[trigger] self.events@[i]).wf()
    }
}

/// Strictly ascending block numbers: sorted and free of duplicates.
pub open spec fn sorted_by_number(s: Seq<ConfirmedBlock>) -> bool {
    forall|i: int, j: int| 0 <= i < j < s.len() ==> s[i].number < s[j].number
}

/// The record stored under a number, if any: the first match.
pub open spec fn seq_get(s: Seq<ConfirmedBlock>, n: u64) -> Option<ConfirmedBlock>
    decreases s.len(),
{
    if s.len() == 0 {
        None
    } else if s[0].number == n {
        Some(s[0])
    } else {
        seq_get(s.skip(1), n)
    }
}

/// A number is stored exactly when some record carries it.
proof fn lemma_seq_get_iff(s: Seq<ConfirmedBlock>, n: u64)
    ensures
        (seq_get(s, n) is Some) <==> (exists|i: int|
            0 <= i < s.len() && (#[trigger] s[i]).number == n),
    decreases s.len(),
{
    if s.len() > 0 {
        lemma_seq_get_iff(s.skip(1), n);
        if s[0].number == n {
        } else {
            assert forall|i: int| 0 <= i < s.len() && (#[trigger] s[i]).number == n implies
                exists|i2: int| 0 <= i2 < s.skip(1).len() && (#[trigger] s.skip(1)[i2]).number
                == n by {
                assert(s.skip(1)[i - 1] == s[i]);
            }
        }
    }
}

/// In a sorted vector, looking up the number at an index gives that record.
proof fn lemma_seq_get_at(s: Seq<ConfirmedBlock>, i: int)
    requires
        sorted_by_number(s),
        0 <= i < s.len(),
    ensures
        seq_get(s, s[i].number) == Some(s[i]),
    decreases s.len(),
{
    if i == 0 {
    } else {
        assert(s[0].number < s[i].number);
        assert(sorted_by_number(s.skip(1))) by {
            assert forall|a: int, b: int| 0 <= a < b < s.skip(1).len() implies s.skip(1)[a].number
                < s.skip(1)[b].number by {
                assert(s.skip(1)[a] == s[a + 1]);
                assert(s.skip(1)[b] == s[b + 1]);
            }
        }
        assert(s.skip(1)[i - 1] == s[i]);
        lemma_seq_get_at(s.skip(1), i - 1);
    }
}

/// The ordered buffer of pending blocks.
pub struct PendingBlockStore {
    recs: Vec<ConfirmedBlock>,
}

impl PendingBlockStore {
    /// Well-formed: numbers strictly ascending, every record well-formed.
    pub closed spec fn wf(self) -> bool {
        &&& sorted_by_number(self.recs@)
        &&& forall|i: int| 0 <= i < self.recs@.len() ==> (#[trigger] self.recs@[i]).wf()
    }

    /// The stored records in ascending number order.
    pub closed spec fn records(self) -> Seq<ConfirmedBlock> {
        self.recs@
    }

    /// The record stored under a number, if any.
    pub open spec fn get(self, n: u64) -> Option<ConfirmedBlock> {
        seq_get(self.records(), n)
    }

    pub fn new() -> (r: PendingBlockStore)
        ensures
            r.wf(),
            r.records() == Seq::<ConfirmedBlock>::empty(),
            forall|m: u64| r.get(m) is None,
    {
        let r = PendingBlockStore { recs: Vec::new() };
        proof {
            assert(r.recs@ =~= Seq::<ConfirmedBlock>::empty());
        }
        r
    }

    /// How many blocks are buffered.
    pub fn len(&self) -> (r: usize)
        ensures
            r == self.records().len(),
    {
        self.recs.len()
    }

    /// Stores a record under its number; a record already stored under the
    /// same number is replaced whole (last write wins).
    pub fn insert(&mut self, rec: ConfirmedBlock)
        requires
            old(self).wf(),
            rec.wf(),
        ensures
            final(self).wf(),
            final(self).get(rec.number) == Some(rec),
            forall|m: u64| m != rec.number ==> final(self).get(m) == old(self).get(m),
    {
        let n = rec.number;
        let len = self.recs.len();
        let mut j: usize = 0;
        while j < len && self.recs[j].number < n
            invariant
                len == self.recs@.len(),
                j <= len,
                forall|t: int| 0 <= t < j ==> (#[trigger] self.recs@[t]).number < n,
            decreases len - j,
        {
            j = j + 1;
        }
        let ghost olds = self.recs@;
        if j < len && self.recs[j].number == n {
            self.recs[j] = rec;
            proof {
                let news = self.recs@;
                assert(news == olds.update(j as int, rec));
                assert(sorted_by_number(news)) by {
                    assert forall|a: int, b: int| 0 <= a < b < news.len() implies news[a].number
                        < news[b].number by {
                        assert(news[a].number == olds[a].number);
                        assert(news[b].number == olds[b].number);
                    }
                }
                lemma_seq_get_at(news, j as int);
                assert forall|m: u64| m != n implies seq_get(news, m) == seq_get(olds, m) by {
                    lemma_seq_get_iff(olds, m);
                    lemma_seq_get_iff(news, m);
                    if seq_get(olds, m) is Some {
                        let i = choose|i: int|
                            0 <= i < olds.len() && (#[trigger] olds[i]).number == m;
                        assert(i != j);
                        lemma_seq_get_at(olds, i);
                        lemma_seq_get_at(news, i);
                    } else {
                        assert forall|i: int| 0 <= i < news.len() implies (#[trigger] news[i]).number
                            != m by {
                            assert(news[i].number == olds[i].number);
                        }
                        if seq_get(news, m) is Some {
                            assert(exists|i: int|
                                0 <= i < news.len() && (#[trigger] news[i]).number == m);
                        }
                    }
                }
            }
        } else {
            self.recs.insert(j, rec);
            proof {
                let news = self.recs@;
                assert(news == olds.insert(j as int, rec));
                assert(forall|t: int| 0 <= t < j ==> news[t] == olds[t]);
                assert(news[j as int] == rec);
                assert(forall|t: int| j < t < news.len() ==> news[t] == olds[t - 1]);
                assert(sorted_by_number(news)) by {
                    assert forall|a: int, b: int| 0 <= a < b < news.len() implies news[a].number
                        < news[b].number by {
                        if a < j && b == j {
                        } else if a == j && b > j {
                            assert(news[b] == olds[b - 1]);
                            if b - 1 == j {
                            } else {
                                assert(olds[j as int].number < olds[b - 1].number);
                            }
                        } else if a < j && b > j {
                            assert(olds[a].number < n);
                        } else {
                        }
                    }
                }
                lemma_seq_get_at(news, j as int);
                assert forall|m: u64| m != n implies seq_get(news, m) == seq_get(olds, m) by {
                    lemma_seq_get_iff(olds, m);
                    lemma_seq_get_iff(news, m);
                    if seq_get(olds, m) is Some {
                        let i = choose|i: int|
                            0 <= i < olds.len() && (#[trigger] olds[i]).number == m;
                        lemma_seq_get_at(olds, i);
                        if i < j {
                            lemma_seq_get_at(news, i);
                        } else {
                            assert(news[i + 1] == olds[i]);
                            lemma_seq_get_at(news, i + 1);
                        }
                    } else {
                        assert forall|i: int| 0 <= i < news.len() implies (#[trigger] news[i]).number
                            != m by {
                            if i < j {
                                assert(news[i] == olds[i]);
                            } else if i == j {
                            } else {
                                assert(news[i] == olds[i - 1]);
                            }
                        }
                        if seq_get(news, m) is Some {
                            assert(exists|i: int|
                                0 <= i < news.len() && (#[trigger] news[i]).number == m);
                        }
                    }
                }
            }
        }
    }

    /// The numbers of all stored blocks at or below the cutoff, in ascending
    /// order: the blocks that have reached the confirmation depth.
    pub fn candidates(&self, cutoff: u64) -> (r: Vec<u64>)
        requires
            self.wf(),
        ensures
            forall|a: int, b: int| 0 <= a < b < r@.len() ==> r@[a] < r@[b],
            forall|m: u64| #[trigger] r@.contains(m) <==> (self.get(m) is Some && m <= cutoff),
    {
        let len = self.recs.len();
        let mut out: Vec<u64> = Vec::new();
        let mut i: usize = 0;
        while i < len
            invariant
                self.wf(),
                len == self.recs@.len(),
                i <= len,
                forall|a: int, b: int| 0 <= a < b < out@.len() ==> out@[a] < out@[b],
                forall|a: int|
                    0 <= a < out@.len() ==> exists|t: int|
                        0 <= t < i && (#[trigger] out@[a]) == self.recs@[t].number && out@[a]
                            <= cutoff,
                forall|t: int|
                    0 <= t < i && (#[trigger] self.recs@[t]).number <= cutoff ==> out@.contains(
                        self.recs@[t].number,
                    ),
            decreases len - i,
        {
            if self.recs[i].number <= cutoff {
                let ghost pre = out@;
                out.push(self.recs[i].number);
                proof {
                    assert forall|a: int, b: int| 0 <= a < b < out@.len() implies out@[a]
                        < out@[b] by {
                        if b < out@.len() - 1 {
                            assert(out@[a] == pre[a] && out@[b] == pre[b]);
                        } else {
                            assert(out@[b] == self.recs@[i as int].number);
                            if a < pre.len() {
                                assert(out@[a] == pre[a]);
                                let t = choose|t: int|
                                    0 <= t < i && pre[a] == self.recs@[t].number && pre[a]
                                        <= cutoff;
                                assert(self.recs@[t].number < self.recs@[i as int].number);
                            }
                        }
                    }
                    assert forall|t: int|
                        0 <= t < i + 1 && (#[trigger] self.recs@[t]).number <= cutoff implies
                        out@.contains(self.recs@[t].number) by {
                        if t < i {
                            assert(pre.contains(self.recs@[t].number));
                            let a = choose|a: int| 0 <= a < pre.len() && pre[a] == self.recs@[t].number;
                            assert(out@[a] == self.recs@[t].number);
                        } else {
                            assert(out@[out@.len() - 1] == self.recs@[t].number);
                        }
                    }
                }
            }
            i = i + 1;
        }
        proof {
            assert forall|m: u64| #[trigger] out@.contains(m) implies (self.get(m) is Some && m
                <= cutoff) by {
                let a = choose|a: int| 0 <= a < out@.len() && out@[a] == m;
                let t = choose|t: int|
                    0 <= t < len && out@[a] == self.recs@[t].number && out@[a] <= cutoff;
                lemma_seq_get_at(self.recs@, t);
            }
            assert forall|m: u64| self.get(m) is Some && m <= cutoff implies #[trigger] out@.contains(
                m,
            ) by {
                lemma_seq_get_iff(self.recs@, m);
                let t = choose|t: int|
                    0 <= t < self.recs@.len() && (#[trigger] self.recs@[t]).number == m;
            }
        }
        out
    }

    /// Applies one canonical lookup to one swept block. No canonical block
    /// yet: the record stays pending untouched. A canonical hash equal to the
    /// stored one: the record is confirmed, removed and returned. A canonical
    /// hash that disagrees: a reorganization past the confirmation depth,
    /// returned as the fatal error carrying the block number and both hashes;
    /// the store is untouched. A number with nothing stored resolves to
    /// nothing as well.
    pub fn resolve_candidate(&mut self, number: u64, canonical: Option<Vec<u8>>) -> (r: Result<
        Option<ConfirmedBlock>,
        ReorgDetected,
    >)
        requires
            old(self).wf(),
        ensures
            final(self).wf(),
            (r is Err) <==> (old(self).get(number) is Some && canonical is Some
                && canonical.unwrap()@ != old(self).get(number).unwrap().hash@),
            r is Err ==> final(self).records() == old(self).records() && r->Err_0.number == number
                && r->Err_0.expected@ == old(self).get(number).unwrap().hash@ && r->Err_0.got@
                == canonical.unwrap()@,
            r is Ok ==> ((r->Ok_0 is Some) <==> (old(self).get(number) is Some && canonical
                is Some)),
            (r is Ok && r->Ok_0 is None) ==> final(self).records() == old(self).records(),
            (r is Ok && r->Ok_0 is Some) ==> r->Ok_0.unwrap() == old(self).get(number).unwrap()
                && canonical.unwrap()@ == old(self).get(number).unwrap().hash@ && final(self).get(
                number,
            ) is None && (forall|m: u64| m != number ==> final(self).get(m) == old(self).get(m)),
    {
        let h = match canonical {
            None => {
                return Ok(None);
            },
            Some(h) => h,
        };
        let len = self.recs.len();
        let mut i: usize = 0;
        while i < len && self.recs[i].number != number
            invariant
                len == self.recs@.len(),
                i <= len,
                forall|t: int| 0 <= t < i ==> (#[trigger] self.recs@[t]).number != number,
            decreases len - i,
        {
            i = i + 1;
        }
        if i == len {
            proof {
                lemma_seq_get_iff(self.recs@, number);
            }
            return Ok(None);
        }
        proof {
            lemma_seq_get_at(self.recs@, i as int);
        }
        if bytes_eq(&self.recs[i].hash, &h) {
            let ghost olds = self.recs@;
            let rec = self.recs.remove(i);
            proof {
                let news = self.recs@;
                assert(news == olds.remove(i as int));
                assert(forall|t: int| 0 <= t < i ==> news[t] == olds[t]);
                assert(forall|t: int| i <= t < news.len() ==> news[t] == olds[t + 1]);
                assert(sorted_by_number(news)) by {
                    assert forall|a: int, b: int| 0 <= a < b < news.len() implies news[a].number
                        < news[b].number by {
                        if a < i && b < i {
                        } else if a < i {
                            assert(news[b] == olds[b + 1]);
                        } else {
                            assert(news[a] == olds[a + 1]);
                            assert(news[b] == olds[b + 1]);
                        }
                    }
                }
                assert(seq_get(news, number) is None) by {
                    lemma_seq_get_iff(news, number);
                    assert forall|t: int| 0 <= t < news.len() implies (#[trigger] news[t]).number
                        != number by {
                        if t < i {
                            assert(olds[t].number < olds[i as int].number);
                        } else {
                            assert(news[t] == olds[t + 1]);
                            assert(olds[i as int].number < olds[t + 1].number);
                        }
                    }
                }
                assert forall|m: u64| m != number implies seq_get(news, m) == seq_get(olds, m) by {
                    lemma_seq_get_iff(olds, m);
                    lemma_seq_get_iff(news, m);
                    if seq_get(olds, m) is Some {
                        let t = choose|t: int|
                            0 <= t < olds.len() && (#[trigger] olds[t]).number == m;
                        lemma_seq_get_at(olds, t);
                        if t < i {
                            lemma_seq_get_at(news, t);
                        } else {
                            assert(t != i);
                            assert(news[t - 1] == olds[t]);
                            lemma_seq_get_at(news, t - 1);
                        }
                    } else {
                        assert forall|t: int| 0 <= t < news.len() implies (#[trigger] news[t]).number
                            != m by {
                            if t < i {
                                assert(news[t] == olds[t]);
                            } else {
                                assert(news[t] == olds[t + 1]);
                            }
                        }
                        if seq_get(news, m) is Some {
                            assert(exists|t: int|
                                0 <= t < news.len() && (#[trigger] news[t]).number == m);
                        }
                    }
                }
            }
            Ok(Some(rec))
        } else {
            let expected = bytes_clone(&self.recs[i].hash);
            Err(ReorgDetected { number, expected, got: h })
        }
    }

    /// Handles one incoming header: decodes the block's logs and stores the
    /// record under the block's number, replacing any earlier observation of
    /// that number whole.
    pub fn process_header(&mut self, number: u64, hash: Vec<u8>, logs: &Vec<RawLog>)
        requires
            old(self).wf(),
            hash@.len() == 32,
            forall|i: int| 0 <= i < logs@.len() ==> (#[trigger] logs@[i]).wf(),
        ensures
            final(self).wf(),
            final(self).get(number) is Some,
            final(self).get(number).unwrap().number == number,
            final(self).get(number).unwrap().hash@ == hash@,
            final(self).get(number).unwrap().events@.map_values(|e: SwapEvent| e@) == logs@.filter(
                |l: RawLog| decodes(l),
            ).map_values(|l: RawLog| log_swap_view(l)),
            forall|m: u64| m != number ==> final(self).get(m) == old(self).get(m),
    {
        let events = decode_logs(logs);
        let rec = ConfirmedBlock { number, hash, events };
        self.insert(rec);
    }
}

} // verus!
