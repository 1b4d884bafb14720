//! The meaning of a log: the records that a forward scan reads from it, and
//! the key-value state and garbage count that they leave.

use vstd::prelude::*;
use crate::record::{
    encoding, fields_of, holds_record, lemma_framing_round_trip, mutation_fits, record_at, tag_of, Mutation,
};

verus! {

/// The state after one more mutation.
pub open spec fn apply(m: Map<Seq<char>, Seq<char>>, r: Mutation) -> Map<Seq<char>, Seq<char>> {
    match r {
        Mutation::Put(k, v) => m.insert(k, v),
        Mutation::Delete(k) => m.remove(k),
    }
}

/// The key-value state that a sequence of mutations leaves, from empty.
pub open spec fn state(recs: Seq<Mutation>) -> Map<Seq<char>, Seq<char>>
    decreases recs.len(),
{
    if recs.len() == 0 {
        Map::empty()
    } else {
        apply(state(recs.drop_last()), recs.last())
    }
}

/// The garbage that replay counts: every `Put` of a key that was present,
/// and every `Delete`.
pub open spec fn garbage_of(recs: Seq<Mutation>) -> nat
    decreases recs.len(),
{
    if recs.len() == 0 {
        0
    } else {
        garbage_of(recs.drop_last()) + match recs.last() {
            Mutation::Put(k, _) => if state(recs.drop_last()).contains_key(k) {
                1nat
            } else {
                0nat
            },
            Mutation::Delete(_) => 1nat,
        }
    }
}

/// The records that a forward scan of `bytes` reads, stopping where no
/// well-framed record stands.
pub open spec fn scan(bytes: Seq<u8>) -> Seq<Mutation>
    decreases bytes.len(),
{
    match record_at(bytes) {
        Some((m, n)) => seq![m] + scan(bytes.subrange(n as int, bytes.len() as int)),
        None => Seq::empty(),
    }
}

/// The number of bytes that the records read by `scan` take.
pub open spec fn scan_end(bytes: Seq<u8>) -> nat
    decreases bytes.len(),
{
    match record_at(bytes) {
        Some((m, n)) => n + scan_end(bytes.subrange(n as int, bytes.len() as int)),
        None => 0,
    }
}

/// `log` holds the records `recs` one after another, record `i` in the bytes
/// from `offs[i]` to `offs[i + 1]`.
pub open spec fn framed(log: Seq<u8>, recs: Seq<Mutation>, offs: Seq<int>) -> bool {
    &&& offs.len() == recs.len() + 1
    &&& offs[0] == 0
    &&& offs[recs.len() as int] <= log.len()
    &&& forall|i: int, j: int| 0 <= i < j <= recs.len() ==> offs[i] < offs[j]
    &&& forall|i: int|
        0 <= i < recs.len() ==> #[trigger] holds_record(log.subrange(offs[i], offs[i + 1]), recs[i])
    &&& forall|i: int| 0 <= i < recs.len() ==> #[trigger] mutation_fits(recs[i])
}

pub proof fn lemma_state_push(recs: Seq<Mutation>, m: Mutation)
    ensures
        state(recs.push(m)) == apply(state(recs), m),
        garbage_of(recs.push(m)) == garbage_of(recs) + match m {
            Mutation::Put(k, _) => if state(recs).contains_key(k) {
                1nat
            } else {
                0nat
            },
            Mutation::Delete(_) => 1nat,
        },
{
    assert(recs.push(m).drop_last() =~= recs);
}

/// A record that holds exactly `m` is read as `m` whatever follows it.
pub proof fn lemma_record_at_held(b: Seq<u8>, m: Mutation, rest: Seq<u8>)
    requires
        holds_record(b, m),
        mutation_fits(m),
        b.len() > 0,
    ensures
        record_at(b + rest) == Some((m, b.len())),
{
    lemma_framing_round_trip(m);
    assert(crate::codec::msgpack_read(b + rest) == Some((tag_of(m), fields_of(m), b.len())));
}

/// A framed log that ends where its last record ends, followed by any bytes,
/// scans to its records and then to what those bytes scan to.
pub proof fn lemma_scan_framed(log: Seq<u8>, recs: Seq<Mutation>, offs: Seq<int>, junk: Seq<u8>, i: int)
    requires
        framed(log, recs, offs),
        offs[recs.len() as int] == log.len(),
        0 <= i <= recs.len(),
    ensures
        scan((log + junk).subrange(offs[i], (log.len() + junk.len()) as int)) == recs.subrange(i, recs.len() as int) + scan(junk),
        scan_end((log + junk).subrange(offs[i], (log.len() + junk.len()) as int)) == log.len() - offs[i] + scan_end(junk),
    decreases recs.len() - i,
{
    let n = recs.len() as int;
    let all = log + junk;
    let tail = all.subrange(offs[i], all.len() as int);
    if i == n {
        assert(tail =~= junk);
        assert(recs.subrange(i, n) + scan(junk) =~= scan(junk));
    } else {
        assert(offs[i] < offs[i + 1]);
        if i + 1 < n {
            assert(offs[i + 1] < offs[n]);
        }
        let seg = log.subrange(offs[i], offs[i + 1]);
        let rest = all.subrange(offs[i + 1], all.len() as int);
        assert(holds_record(seg, recs[i]));
        assert(tail =~= seg + rest);
        assert(mutation_fits(recs[i]));
        lemma_record_at_held(seg, recs[i], rest);
        lemma_scan_framed(log, recs, offs, junk, i + 1);
        assert(tail.subrange(seg.len() as int, tail.len() as int) =~= rest);
        assert(recs.subrange(i, n) + scan(junk) =~= seq![recs[i]] + (recs.subrange(i + 1, n) + scan(junk)));
    }
}


/// The index maps each live key to the offset of its latest `Put`, and
/// `slot` gives that record's position among `recs`.
pub open spec fn indexed(
    index: Map<Seq<char>, usize>,
    slot: Map<Seq<char>, int>,
    recs: Seq<Mutation>,
    offs: Seq<int>,
) -> bool {
    &&& index.dom() == state(recs).dom()
    &&& slot.dom() == index.dom()
    &&& forall|k: Seq<char>|
        #[trigger] index.contains_key(k) ==> {
            &&& 0 <= slot[k] < recs.len()
            &&& index[k] == offs[slot[k]]
            &&& recs[slot[k]] == Mutation::Put(k, state(recs)[k])
        }
}

/// The index after one more record, at offset `off`.
pub open spec fn index_after(index: Map<Seq<char>, usize>, m: Mutation, off: usize) -> Map<Seq<char>, usize> {
    match m {
        Mutation::Put(k, _) => index.insert(k, off),
        Mutation::Delete(k) => index.remove(k),
    }
}

/// The record positions after one more record, at position `at`.
pub open spec fn slot_after(slot: Map<Seq<char>, int>, m: Mutation, at: int) -> Map<Seq<char>, int> {
    match m {
        Mutation::Put(k, _) => slot.insert(k, at),
        Mutation::Delete(k) => slot.remove(k),
    }
}

pub proof fn lemma_framed_append(log: Seq<u8>, recs: Seq<Mutation>, offs: Seq<int>, p: Seq<u8>, m: Mutation)
    requires
        framed(log, recs, offs),
        offs[recs.len() as int] == log.len(),
        holds_record(p, m),
        mutation_fits(m),
        p.len() > 0,
    ensures
        framed(log + p, recs.push(m), offs.push((log.len() + p.len()) as int)),
{
    let log2 = log + p;
    let recs2 = recs.push(m);
    let offs2 = offs.push((log.len() + p.len()) as int);
    let n = recs.len() as int;
    assert forall|i: int| 0 <= i < recs2.len() implies #[trigger] holds_record(
        log2.subrange(offs2[i], offs2[i + 1]),
        recs2[i],
    ) by {
        if i < n {
            assert(offs[i] < offs[i + 1] || i + 1 == n);
            if i + 1 < n {
                assert(offs[i + 1] < offs[n]);
            }
            assert(log2.subrange(offs2[i], offs2[i + 1]) =~= log.subrange(offs[i], offs[i + 1]));
        } else {
            assert(log2.subrange(offs2[i], offs2[i + 1]) =~= p);
        }
    }
    assert forall|i: int, j: int| 0 <= i < j <= recs2.len() implies offs2[i] < offs2[j] by {
        if j == recs2.len() {
            if i < n {
                assert(offs[i] < offs[n]);
            }
        }
    }
}

pub proof fn lemma_indexed_push(
    index: Map<Seq<char>, usize>,
    slot: Map<Seq<char>, int>,
    recs: Seq<Mutation>,
    offs: Seq<int>,
    m: Mutation,
    off: usize,
    next: int,
)
    requires
        indexed(index, slot, recs, offs),
        offs.len() == recs.len() + 1,
        off == offs[recs.len() as int],
    ensures
        indexed(
            index_after(index, m, off),
            slot_after(slot, m, recs.len() as int),
            recs.push(m),
            offs.push(next),
        ),
{
    lemma_state_push(recs, m);
    let recs2 = recs.push(m);
    let offs2 = offs.push(next);
    let index2 = index_after(index, m, off);
    let slot2 = slot_after(slot, m, recs.len() as int);
    assert(index2.dom() =~= state(recs2).dom());
    assert(slot2.dom() =~= index2.dom());
    assert forall|k: Seq<char>| #[trigger] index2.contains_key(k) implies {
        &&& 0 <= slot2[k] < recs2.len()
        &&& index2[k] == offs2[slot2[k]]
        &&& recs2[slot2[k]] == Mutation::Put(k, state(recs2)[k])
    } by {
        match m {
            Mutation::Put(k1, _) => {
                if k != k1 {
                    assert(index.contains_key(k));
                }
            },
            Mutation::Delete(k1) => {
                assert(index.contains_key(k));
            },
        }
    }
}

/// In a framed log, the record read at the offset of record `i` is that record.
pub proof fn lemma_framed_record_at(log: Seq<u8>, recs: Seq<Mutation>, offs: Seq<int>, i: int)
    requires
        framed(log, recs, offs),
        offs[recs.len() as int] == log.len(),
        0 <= i < recs.len(),
    ensures
        record_at(log.subrange(offs[i], log.len() as int)) == Some((recs[i], (offs[i + 1] - offs[i]) as nat)),
        offs[i] < offs[i + 1] <= log.len(),
{
    let n = recs.len() as int;
    assert(offs[i] < offs[i + 1]);
    if i + 1 < n {
        assert(offs[i + 1] < offs[n]);
    }
    let seg = log.subrange(offs[i], offs[i + 1]);
    let rest = log.subrange(offs[i + 1], log.len() as int);
    assert(holds_record(seg, recs[i]));
    assert(log.subrange(offs[i], log.len() as int) =~= seg + rest);
    lemma_record_at_held(seg, recs[i], rest);
}


pub proof fn lemma_framed_extend(log: Seq<u8>, recs: Seq<Mutation>, offs: Seq<int>, m: Mutation, end: int)
    requires
        framed(log, recs, offs),
        offs[recs.len() as int] < end <= log.len(),
        holds_record(log.subrange(offs[recs.len() as int], end), m),
        mutation_fits(m),
    ensures
        framed(log, recs.push(m), offs.push(end)),
{
    let recs2 = recs.push(m);
    let offs2 = offs.push(end);
    let n = recs.len() as int;
    assert forall|i: int| 0 <= i < recs2.len() implies #[trigger] holds_record(
        log.subrange(offs2[i], offs2[i + 1]),
        recs2[i],
    ) by {
        if i < n {
            assert(holds_record(log.subrange(offs[i], offs[i + 1]), recs[i]));
        }
    }
    assert forall|i: int, j: int| 0 <= i < j <= recs2.len() implies offs2[i] < offs2[j] by {
        if j == recs2.len() {
            if i < n {
                assert(offs[i] < offs[n]);
            }
        }
    }
}

pub proof fn lemma_framed_truncate(log: Seq<u8>, recs: Seq<Mutation>, offs: Seq<int>)
    requires
        framed(log, recs, offs),
    ensures
        framed(log.subrange(0, offs[recs.len() as int]), recs, offs),
{
    let n = recs.len() as int;
    let log2 = log.subrange(0, offs[n]);
    assert forall|i: int| 0 <= i < recs.len() implies #[trigger] holds_record(
        log2.subrange(offs[i], offs[i + 1]),
        recs[i],
    ) by {
        assert(offs[i] < offs[i + 1]);
        if i + 1 < n {
            assert(offs[i + 1] < offs[n]);
        }
        assert(log2.subrange(offs[i], offs[i + 1]) =~= log.subrange(offs[i], offs[i + 1]));
    }
}

/// The bytes of a sequence of records, one after another.
pub open spec fn encodings(recs: Seq<Mutation>) -> Seq<u8>
    decreases recs.len(),
{
    if recs.len() == 0 {
        Seq::empty()
    } else {
        encodings(recs.drop_last()) + encoding(recs.last())
    }
}

pub proof fn lemma_encodings_push(recs: Seq<Mutation>, m: Mutation)
    ensures
        encodings(recs.push(m)) == encodings(recs) + encoding(m),
{
    assert(recs.push(m).drop_last() =~= recs);
}

/// Records without garbage are `Put`s of distinct keys: one per key that
/// they leave.
pub proof fn lemma_no_garbage(recs: Seq<Mutation>)
    requires
        garbage_of(recs) == 0,
    ensures
        state(recs).dom().finite(),
        state(recs).len() == recs.len(),
        forall|i: int| 0 <= i < recs.len() ==> #[trigger] recs[i] is Put,
    decreases recs.len(),
{
    if recs.len() == 0 {
        assert(state(recs).dom() =~= Set::<Seq<char>>::empty());
    } else {
        let p = recs.drop_last();
        lemma_no_garbage(p);
        match recs.last() {
            Mutation::Put(k, v) => {
                assert(!state(p).contains_key(k));
                assert(state(recs).dom() =~= state(p).dom().insert(k));
            },
            Mutation::Delete(_) => {},
        }
        assert forall|i: int| 0 <= i < recs.len() implies #[trigger] recs[i] is Put by {
            if i < recs.len() - 1 {
                assert(recs[i] == p[i]);
            }
        }
    }
}

/// The keys whose latest `Put` is among the first `i` records.
pub open spec fn done_keys(index: Map<Seq<char>, usize>, slot: Map<Seq<char>, int>, i: int) -> Set<Seq<char>> {
    Set::new(|k: Seq<char>| index.contains_key(k) && slot[k] < i)
}

/// Moving past record `i` adds its key to the done keys exactly where that
/// record is its key's latest `Put`.
pub proof fn lemma_done_keys_next(
    index: Map<Seq<char>, usize>,
    slot: Map<Seq<char>, int>,
    recs: Seq<Mutation>,
    offs: Seq<int>,
    i: int,
)
    requires
        indexed(index, slot, recs, offs),
        0 <= i < recs.len(),
    ensures
        done_keys(index, slot, i + 1) == match recs[i] {
            Mutation::Put(k, _) => if index.contains_key(k) && slot[k] == i {
                done_keys(index, slot, i).insert(k)
            } else {
                done_keys(index, slot, i)
            },
            Mutation::Delete(_) => done_keys(index, slot, i),
        },
{
    match recs[i] {
        Mutation::Put(k, _) => {
            if index.contains_key(k) && slot[k] == i {
                assert(done_keys(index, slot, i + 1) =~= done_keys(index, slot, i).insert(k));
            } else {
                assert forall|k2: Seq<char>| done_keys(index, slot, i + 1).contains(k2) implies done_keys(index, slot, i).contains(k2) by {
                    if slot[k2] == i {
                        assert(recs[slot[k2]] == Mutation::Put(k2, state(recs)[k2]));
                    }
                }
                assert(done_keys(index, slot, i + 1) =~= done_keys(index, slot, i));
            }
        },
        Mutation::Delete(_) => {
            assert forall|k2: Seq<char>| done_keys(index, slot, i + 1).contains(k2) implies done_keys(index, slot, i).contains(k2) by {
                if slot[k2] == i {
                    assert(recs[slot[k2]] == Mutation::Put(k2, state(recs)[k2]));
                }
            }
            assert(done_keys(index, slot, i + 1) =~= done_keys(index, slot, i));
        },
    }
}

} // verus!
