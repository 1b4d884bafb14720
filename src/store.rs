//! The engine: replay on open, `get`, `set`, `remove`, garbage accounting
//! and compaction, over a log held as bytes.

use vstd::prelude::*;
use vstd::hash_map::StringHashMap;
use crate::record::{encode_record, encoding, read_record, record_at, KvCommand, Mutation};
use crate::record::{fields_of, mutation_fits};
use crate::codec::FIELD_LIMIT;
use crate::replay::{
    apply, done_keys, encodings, framed, garbage_of, indexed, lemma_done_keys_next,
    lemma_encodings_push, lemma_framed_append, lemma_framed_extend, lemma_framed_record_at,
    lemma_framed_truncate, lemma_indexed_push, lemma_no_garbage, lemma_scan_framed,
    lemma_state_push, scan, scan_end, slot_after, state,
};

verus! {

/// Compaction runs once the garbage count reaches this value.
pub const COMPACTION_THRESHOLD: usize = 100;

/// What an operation of the store can fail with.
#[derive(Debug, Clone, Copy, PartialEq, Eq, Structural)]
pub enum KvStoreError {
    /// A record could not be encoded.
    EncodeError,
    /// The bytes at an indexed offset do not form a record.
    DecodeError,
    /// `remove` of a key that the store does not hold.
    RmKeyNotFoundError,
    /// The record at an indexed offset is not a `Put` of the key looked up.
    GetError,
    /// Compaction could not rewrite a live record. Every record that replay
    /// accepts can be rewritten, so no operation of the store returns it.
    CompactionError,
}

/// A key-value store over an append-only log of records.
pub struct KvStore {
    index: StringHashMap<usize>,
    log: Vec<u8>,
    garbage: usize,
    records: Ghost<Seq<Mutation>>,
    offsets: Ghost<Seq<int>>,
    slots: Ghost<Map<Seq<char>, int>>,
}

impl View for KvStore {
    type V = Map<Seq<char>, Seq<char>>;

    /// The keys that the store holds, with their values.
    closed spec fn view(&self) -> Map<Seq<char>, Seq<char>> {
        state(self.records@)
    }
}

impl KvStore {
    /// The log holds the records one after another, and the index points at
    /// each live key's latest `Put`.
    closed spec fn wf_log(&self) -> bool {
        &&& framed(self.log@, self.records@, self.offsets@)
        &&& self.offsets@[self.records@.len() as int] == self.log@.len()
        &&& indexed(self.index@, self.slots@, self.records@, self.offsets@)
    }

    /// The log is well-formed and the garbage count is the one replay gives.
    closed spec fn wf_counted(&self) -> bool {
        &&& self.wf_log()
        &&& self.garbage == garbage_of(self.records@)
    }

    /// The store's invariant: a well-formed log, its replay garbage count,
    /// and that count below the compaction threshold.
    pub closed spec fn wf(&self) -> bool {
        &&& self.wf_counted()
        &&& self.garbage < COMPACTION_THRESHOLD
    }

    /// The bytes of the log.
    pub closed spec fn log_spec(&self) -> Seq<u8> {
        self.log@
    }

    /// The records of the log, in order.
    pub closed spec fn records_spec(&self) -> Seq<Mutation> {
        self.records@
    }

    /// The garbage count.
    pub closed spec fn garbage_spec(&self) -> nat {
        self.garbage as nat
    }

    /// The log was just rewritten by compaction: one `Put` per key that the
    /// store holds, and nothing else.
    pub open spec fn compacted(&self) -> bool {
        &&& self.garbage_spec() == 0
        &&& garbage_of(self.records_spec()) == 0
        &&& self.records_spec().len() == self@.len()
        &&& forall|i: int|
            0 <= i < self.records_spec().len() ==> #[trigger] self.records_spec()[i] is Put
        &&& self.log_spec() == encodings(self.records_spec())
    }

    /// Reopening a store on its log, or on its log followed by a torn write
    /// (bytes at whose start no well-framed record stands), replays exactly
    /// its records, which make up its contents, with the same garbage count,
    /// which is below the compaction threshold.
    pub proof fn law_reopen_same_contents(&self, torn: Seq<u8>)
        requires
            self.wf(),
            record_at(torn) is None,
        ensures
            scan(self.log_spec() + torn) == self.records_spec(),
            scan_end(self.log_spec() + torn) == self.log_spec().len(),
            state(scan(self.log_spec() + torn)) == self@,
            garbage_of(self.records_spec()) == self.garbage_spec(),
            self.garbage_spec() < COMPACTION_THRESHOLD,
    {
        lemma_scan_framed(self.log@, self.records@, self.offsets@, torn, 0);
        let all = self.log@ + torn;
        assert(all.subrange(0, all.len() as int) =~= all);
        assert(self.records@.subrange(0, self.records@.len() as int) + scan(torn) =~= self.records@);
    }

    /// A write of `b` cut short after `cut` of its bytes, where no proper
    /// prefix of `b` reads as a record (as `encode_record` promises of the
    /// bytes it gives), leaves the store's contents on reopening.
    pub proof fn law_torn_write(&self, b: Seq<u8>, cut: int)
        requires
            self.wf(),
            0 <= cut < b.len(),
            forall|j: int| 0 <= j < b.len() ==> #[trigger] record_at(b.subrange(0, j)) is None,
        ensures
            scan(self.log_spec() + b.subrange(0, cut)) == self.records_spec(),
            state(scan(self.log_spec() + b.subrange(0, cut))) == self@,
    {
        assert(record_at(b.subrange(0, cut)) is None);
        self.law_reopen_same_contents(b.subrange(0, cut));
    }

    /// The bytes of the log, to be kept on durable storage.
    pub fn log_bytes(&self) -> (r: &Vec<u8>)
        ensures
            r@ == self.log_spec(),
    {
        &self.log
    }

    /// The garbage count: records that compaction would drop, as counted.
    pub fn garbage(&self) -> (r: usize)
        ensures
            r == self.garbage_spec(),
    {
        self.garbage
    }

    /// Rewrites the log with one `Put` per live key, in log order, and
    /// resets the garbage count.
    fn compact(&mut self) -> (r: Result<(), KvStoreError>)
        requires
            old(self).wf_log(),
        ensures
            r is Ok,
            final(self).wf(),
            final(self)@ == old(self)@,
            final(self).compacted(),
    {
        let ghost recs = self.records@;
        let ghost offs = self.offsets@;
        let ghost slots = self.slots@;
        let ghost n = recs.len() as int;
        let ghost contents = state(recs);
        let mut new_log: Vec<u8> = Vec::new();
        let mut new_index: StringHashMap<usize> = StringHashMap::new();
        let ghost mut new_recs: Seq<Mutation> = Seq::empty();
        let ghost mut new_offs: Seq<int> = seq![0int];
        let ghost mut new_slots: Map<Seq<char>, int> = Map::empty();
        let ghost mut i: int = 0;
        let mut pos: usize = 0;
        proof {
            assert(new_index@.dom() =~= state(new_recs).dom());
            assert(new_slots.dom() =~= new_index@.dom());
            assert(done_keys(self.index@, slots, 0) =~= Set::<Seq<char>>::empty());
            assert(new_log@ =~= encodings(new_recs));
        }
        while pos < self.log.len()
            invariant
                self.wf_log(),
                recs == self.records@,
                offs == self.offsets@,
                slots == self.slots@,
                n == recs.len(),
                contents == state(recs),
                0 <= i <= n,
                pos == offs[i],
                framed(new_log@, new_recs, new_offs),
                new_offs[new_recs.len() as int] == new_log@.len(),
                indexed(new_index@, new_slots, new_recs, new_offs),
                garbage_of(new_recs) == 0,
                new_log@ == encodings(new_recs),
                state(new_recs).dom() == done_keys(self.index@, slots, i),
                forall|k: Seq<char>|
                    #[trigger] state(new_recs).contains_key(k) ==> state(new_recs)[k] == contents[k],
            decreases self.log@.len() - pos,
        {
            proof {
                assert(i < n);
                lemma_framed_record_at(self.log@, recs, offs, i);
                lemma_done_keys_next(self.index@, slots, recs, offs, i);
                assert(mutation_fits(recs[i]));
            }
            let (c, len) = match read_record(&self.log, pos) {
                Some(x) => x,
                None => {
                    return Err(KvStoreError::CompactionError);
                },
            };
            match c {
                KvCommand::Put(k, v) => {
                    let live = match self.index.get(k.as_str()) {
                        Some(o) => *o == pos,
                        None => false,
                    };
                    proof {
                        if self.index@.contains_key(k@) {
                            let j = slots[k@];
                            if j < i {
                                assert(offs[j] < offs[i]);
                            } else if j > i {
                                assert(offs[i] < offs[j]);
                            }
                        }
                    }
                    if live {
                        let cmd = KvCommand::Put(k.clone(), v);
                        let mut enc = match encode_record(&cmd) {
                            Some(b) => b,
                            None => {
                                return Err(KvStoreError::CompactionError);
                            },
                        };
                        let at = new_log.len();
                        proof {
                            lemma_framed_append(new_log@, new_recs, new_offs, enc@, recs[i]);
                            lemma_indexed_push(new_index@, new_slots, new_recs, new_offs, recs[i], at, (new_log@.len() + enc@.len()) as int);
                            lemma_state_push(new_recs, recs[i]);
                            lemma_encodings_push(new_recs, recs[i]);
                        }
                        new_log.append(&mut enc);
                        new_index.insert(k, at);
                        proof {
                            new_offs = new_offs.push(new_log@.len() as int);
                            new_slots = slot_after(new_slots, recs[i], new_recs.len() as int);
                            new_recs = new_recs.push(recs[i]);
                            assert(state(new_recs).dom() =~= done_keys(self.index@, slots, i + 1));
                        }
                    }
                },
                KvCommand::Rm(_) => {},
            }
            pos = pos + len;
            proof {
                i = i + 1;
            }
        }
        proof {
            if i < n {
                assert(offs[i] < offs[n]);
            }
            assert(state(new_recs).dom() =~= contents.dom());
            assert(state(new_recs) =~= contents);
            lemma_no_garbage(new_recs);
        }
        self.log = new_log;
        self.index = new_index;
        self.garbage = 0;
        self.records = Ghost(new_recs);
        self.offsets = Ghost(new_offs);
        self.slots = Ghost(new_slots);
        Ok(())
    }

    /// Runs compaction if the garbage count has reached the threshold.
    fn maybe_compact_logs(&mut self) -> (r: Result<(), KvStoreError>)
        requires
            old(self).wf_counted(),
        ensures
            r is Ok,
            final(self).wf(),
            final(self)@ == old(self)@,
            old(self).garbage < COMPACTION_THRESHOLD ==> *final(self) == *old(self),
            old(self).garbage >= COMPACTION_THRESHOLD ==> final(self).compacted(),
    {
        if self.garbage < COMPACTION_THRESHOLD {
            return Ok(());
        }
        self.compact()
    }

    /// Opens a store on the bytes of a log: replays the records from the
    /// start up to the first place where no well-framed record stands, drops
    /// what follows, and compacts if the garbage count reaches the threshold.
    pub fn open(bytes: Vec<u8>) -> (r: Result<KvStore, KvStoreError>)
        ensures
            r matches Ok(s) && {
                &&& s.wf()
                &&& s@ == state(scan(bytes@))
                &&& if garbage_of(scan(bytes@)) < COMPACTION_THRESHOLD {
                    &&& s.log_spec() == bytes@.subrange(0, scan_end(bytes@) as int)
                    &&& s.records_spec() == scan(bytes@)
                    &&& s.garbage_spec() == garbage_of(scan(bytes@))
                } else {
                    s.compacted()
                }
            },
    {
        let mut bytes = bytes;
        let mut index: StringHashMap<usize> = StringHashMap::new();
        let mut garbage: usize = 0;
        let mut pos: usize = 0;
        let ghost mut recs: Seq<Mutation> = Seq::empty();
        let ghost mut offs: Seq<int> = seq![0int];
        let ghost mut slots: Map<Seq<char>, int> = Map::empty();
        proof {
            assert(index@.dom() =~= state(recs).dom());
            assert(slots.dom() =~= index@.dom());
            assert(bytes@.subrange(0, bytes@.len() as int) =~= bytes@);
        }
        loop
            invariant
                pos <= bytes@.len(),
                framed(bytes@, recs, offs),
                offs[recs.len() as int] == pos,
                indexed(index@, slots, recs, offs),
                garbage == garbage_of(recs),
                garbage <= pos,
                scan(bytes@) == recs + scan(bytes@.subrange(pos as int, bytes@.len() as int)),
                scan_end(bytes@) == pos + scan_end(bytes@.subrange(pos as int, bytes@.len() as int)),
            ensures
                pos <= bytes@.len(),
                framed(bytes@, recs, offs),
                offs[recs.len() as int] == pos,
                indexed(index@, slots, recs, offs),
                garbage == garbage_of(recs),
                scan(bytes@) == recs,
                scan_end(bytes@) == pos,
            decreases bytes@.len() - pos,
        {
            let ghost tail = bytes@.subrange(pos as int, bytes@.len() as int);
            match read_record(&bytes, pos) {
                None => {
                    proof {
                        assert(recs + Seq::<Mutation>::empty() =~= recs);
                    }
                    break;
                },
                Some((c, n)) => {
                    let blen = bytes.len();
                    let ghost m = c@;
                    proof {
                        assert(tail.subrange(n as int, tail.len() as int) =~= bytes@.subrange(pos + n, bytes@.len() as int));
                        assert(recs.push(m) + scan(bytes@.subrange(pos + n, bytes@.len() as int)) =~= recs + (seq![m] + scan(bytes@.subrange(pos + n, bytes@.len() as int))));
                        lemma_framed_extend(bytes@, recs, offs, m, pos + n);
                        lemma_indexed_push(index@, slots, recs, offs, m, pos, pos + n);
                        lemma_state_push(recs, m);
                    }
                    match c {
                        KvCommand::Put(k, _) => {
                            if index.contains_key(k.as_str()) {
                                garbage = garbage + 1;
                            }
                            index.insert(k, pos);
                        },
                        KvCommand::Rm(k) => {
                            index.remove(k.as_str());
                            garbage = garbage + 1;
                        },
                    }
                    proof {
                        slots = slot_after(slots, m, recs.len() as int);
                        recs = recs.push(m);
                        offs = offs.push(pos + n);
                    }
                    pos = pos + n;
                },
            }
        }
        proof {
            lemma_framed_truncate(bytes@, recs, offs);
        }
        bytes.truncate(pos);
        let mut kvs = KvStore {
            index,
            log: bytes,
            garbage,
            records: Ghost(recs),
            offsets: Ghost(offs),
            slots: Ghost(slots),
        };
        match kvs.maybe_compact_logs() {
            Ok(()) => Ok(kvs),
            Err(e) => Err(e),
        }
    }

    /// Looks a key up: its value, or `None` where the store does not hold it.
    pub fn get(&self, key: String) -> (r: Result<Option<String>, KvStoreError>)
        requires
            self.wf(),
        ensures
            match r {
                Ok(Some(v)) => self@.contains_key(key@) && v@ == self@[key@],
                Ok(None) => !self@.contains_key(key@),
                Err(_) => false,
            },
    {
        let pos = match self.index.get(key.as_str()) {
            None => {
                return Ok(None);
            },
            Some(o) => *o,
        };
        proof {
            lemma_framed_record_at(self.log@, self.records@, self.offsets@, self.slots@[key@]);
        }
        match read_record(&self.log, pos) {
            None => Err(KvStoreError::DecodeError),
            Some((KvCommand::Put(k, v), _)) => {
                if k == key {
                    Ok(Some(v))
                } else {
                    Err(KvStoreError::GetError)
                }
            },
            Some((KvCommand::Rm(_), _)) => Err(KvStoreError::GetError),
        }
    }

    /// Appends a record to the log, and the index follows it. Fails, changing
    /// nothing, exactly where a field of the record is over the bound.
    fn append_record(&mut self, cmd: KvCommand) -> (r: Result<(), KvStoreError>)
        requires
            old(self).wf_log(),
        ensures
            final(self).wf_log(),
            r is Ok <==> mutation_fits(cmd@),
            match r {
                Ok(()) => {
                    &&& final(self).records@ == old(self).records@.push(cmd@)
                    &&& final(self).log@ == old(self).log@ + encoding(cmd@)
                    &&& final(self)@ == apply(old(self)@, cmd@)
                    &&& final(self).garbage == old(self).garbage
                },
                Err(e) => e == KvStoreError::EncodeError && *final(self) == *old(self),
            },
    {
        let mut enc = match encode_record(&cmd) {
            Some(b) => b,
            None => {
                return Err(KvStoreError::EncodeError);
            },
        };
        let at = self.log.len();
        let ghost m = cmd@;
        proof {
            lemma_framed_append(self.log@, self.records@, self.offsets@, enc@, m);
            lemma_indexed_push(self.index@, self.slots@, self.records@, self.offsets@, m, at, (self.log@.len() + enc@.len()) as int);
            lemma_state_push(self.records@, m);
        }
        self.log.append(&mut enc);
        match cmd {
            KvCommand::Put(k, _) => {
                self.index.insert(k, at);
            },
            KvCommand::Rm(k) => {
                self.index.remove(k.as_str());
            },
        }
        proof {
            self.slots@ = slot_after(self.slots@, m, self.records@.len() as int);
            self.records@ = self.records@.push(m);
            self.offsets@ = self.offsets@.push(self.log@.len() as int);
        }
        Ok(())
    }

    /// Sets a key to a value. Fails with `EncodeError`, changing nothing,
    /// exactly where the key or the value has `FIELD_LIMIT` characters or
    /// more. Where the key was present, the superseded record counts as
    /// garbage, and compaction follows once the count reaches the threshold.
    pub fn set(&mut self, key: String, value: String) -> (r: Result<(), KvStoreError>)
        requires
            old(self).wf(),
        ensures
            final(self).wf(),
            r is Ok <==> key@.len() < FIELD_LIMIT && value@.len() < FIELD_LIMIT,
            match r {
                Ok(()) => {
                    &&& final(self)@ == old(self)@.insert(key@, value@)
                    &&& if !old(self)@.contains_key(key@) {
                        &&& final(self).garbage_spec() == old(self).garbage_spec()
                        &&& final(self).log_spec() == old(self).log_spec() + encoding(Mutation::Put(key@, value@))
                    } else if old(self).garbage_spec() + 1 < COMPACTION_THRESHOLD {
                        &&& final(self).garbage_spec() == old(self).garbage_spec() + 1
                        &&& final(self).log_spec() == old(self).log_spec() + encoding(Mutation::Put(key@, value@))
                    } else {
                        final(self).compacted()
                    }
                },
                Err(e) => e == KvStoreError::EncodeError && *final(self) == *old(self),
            },
    {
        let existed = self.index.contains_key(key.as_str());
        let ghost cmd = Mutation::Put(key@, value@);
        proof {
            assert(fields_of(cmd)[0] == key@ && fields_of(cmd)[1] == value@);
            lemma_state_push(self.records@, cmd);
        }
        match self.append_record(KvCommand::Put(key, value)) {
            Ok(()) => {},
            Err(e) => {
                return Err(e);
            },
        }
        if existed {
            self.garbage = self.garbage + 1;
            self.maybe_compact_logs()
        } else {
            Ok(())
        }
    }

    /// Removes a key. Fails with `RmKeyNotFoundError`, changing nothing,
    /// where the store does not hold it, and with `EncodeError`, changing
    /// nothing, exactly where the key has `FIELD_LIMIT` characters or more.
    /// The removal counts as garbage, and compaction follows once the count
    /// reaches the threshold.
    pub fn remove(&mut self, key: String) -> (r: Result<(), KvStoreError>)
        requires
            old(self).wf(),
        ensures
            final(self).wf(),
            !old(self)@.contains_key(key@) ==> r == Err::<(), KvStoreError>(KvStoreError::RmKeyNotFoundError)
                && *final(self) == *old(self),
            old(self)@.contains_key(key@) ==> (r is Ok <==> key@.len() < FIELD_LIMIT),
            match r {
                Ok(()) => {
                    &&& final(self)@ == old(self)@.remove(key@)
                    &&& if old(self).garbage_spec() + 1 < COMPACTION_THRESHOLD {
                        &&& final(self).garbage_spec() == old(self).garbage_spec() + 1
                        &&& final(self).log_spec() == old(self).log_spec() + encoding(Mutation::Delete(key@))
                    } else {
                        final(self).compacted()
                    }
                },
                Err(e) => (e == KvStoreError::RmKeyNotFoundError || e == KvStoreError::EncodeError)
                    && *final(self) == *old(self),
            },
    {
        if !self.index.contains_key(key.as_str()) {
            return Err(KvStoreError::RmKeyNotFoundError);
        }
        let ghost cmd = Mutation::Delete(key@);
        proof {
            assert(fields_of(cmd)[0] == key@);
            lemma_state_push(self.records@, cmd);
        }
        match self.append_record(KvCommand::Rm(key)) {
            Ok(()) => {},
            Err(e) => {
                return Err(e);
            },
        }
        self.garbage = self.garbage + 1;
        self.maybe_compact_logs()
    }
}

} // verus!
