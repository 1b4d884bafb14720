//! Log records: the mutations that the log holds, and their framing as a
//! tagged list of strings.

use vstd::prelude::*;
use vstd::string::StrSliceExecFns;
use crate::codec::{
    decode_pair, encode_pair, fields_fit, msgpack_of, msgpack_read, reads_back, views, FIELD_LIMIT,
};

verus! {

/// The tag of a `Put` record.
pub const SET_TAG: u8 = 0;

/// The tag of a `Delete` record.
pub const REMOVE_TAG: u8 = 1;

/// A mutation, as the model of a log record.
pub enum Mutation {
    Put(Seq<char>, Seq<char>),
    Delete(Seq<char>),
}

/// A log record: set a key to a value, or remove a key.
pub enum KvCommand {
    Put(String, String),
    Rm(String),
}

impl View for KvCommand {
    type V = Mutation;

    open spec fn view(&self) -> Mutation {
        match self {
            KvCommand::Put(k, v) => Mutation::Put(k@, v@),
            KvCommand::Rm(k) => Mutation::Delete(k@),
        }
    }
}

/// The tag under which a mutation is framed.
pub open spec fn tag_of(m: Mutation) -> u8 {
    match m {
        Mutation::Put(_, _) => SET_TAG,
        Mutation::Delete(_) => REMOVE_TAG,
    }
}

/// The strings under which a mutation is framed.
pub open spec fn fields_of(m: Mutation) -> Seq<Seq<char>> {
    match m {
        Mutation::Put(k, v) => seq![k, v],
        Mutation::Delete(k) => seq![k],
    }
}

/// The fields of a mutation are within the bound that the encoder needs.
pub open spec fn mutation_fits(m: Mutation) -> bool {
    fields_fit(fields_of(m))
}

/// The mutation that a tag and a list of strings frame, if any; fields over
/// the bound frame none.
pub open spec fn mutation_of(tag: u8, fields: Seq<Seq<char>>) -> Option<Mutation> {
    if !fields_fit(fields) {
        None
    } else if tag == SET_TAG && fields.len() == 2 {
        Some(Mutation::Put(fields[0], fields[1]))
    } else if tag == REMOVE_TAG && fields.len() == 1 {
        Some(Mutation::Delete(fields[0]))
    } else {
        None
    }
}

/// The bytes of a mutation in the log.
pub open spec fn encoding(m: Mutation) -> Seq<u8> {
    msgpack_of(tag_of(m), fields_of(m))
}

/// The mutation framed at the front of `bytes`, with the number of bytes it
/// takes, where a well-framed record stands there.
pub open spec fn record_at(bytes: Seq<u8>) -> Option<(Mutation, nat)> {
    match msgpack_read(bytes) {
        Some((tag, fields, n)) => match mutation_of(tag, fields) {
            Some(m) => if 1 <= n <= bytes.len() {
                Some((m, n))
            } else {
                None
            },
            None => None,
        },
        None => None,
    }
}

/// `b` holds exactly the record `m`, whatever follows it.
pub open spec fn holds_record(b: Seq<u8>, m: Mutation) -> bool {
    reads_back(b, tag_of(m), fields_of(m))
}

/// A mutation's framing reads back as that mutation.
pub proof fn lemma_framing_round_trip(m: Mutation)
    requires
        mutation_fits(m),
    ensures
        mutation_of(tag_of(m), fields_of(m)) == Some(m),
{
}

/// Reads the record that starts at `start`, if a well-framed one stands there.
pub fn read_record(bytes: &Vec<u8>, start: usize) -> (r: Option<(KvCommand, usize)>)
    requires
        start <= bytes@.len(),
    ensures
        match r {
            Some((c, n)) => {
                &&& record_at(bytes@.subrange(start as int, bytes@.len() as int)) == Some((c@, n as nat))
                &&& start + n <= bytes@.len()
                &&& holds_record(bytes@.subrange(start as int, start + n), c@)
            },
            None => record_at(bytes@.subrange(start as int, bytes@.len() as int)) is None,
        },
{
    match decode_pair(bytes, start) {
        Ok((tag, fields, n)) => {
            let ghost fs = views(fields@);
            let mut fields = fields;
            if tag == SET_TAG && fields.len() == 2 && field_fits(&fields[0]) && field_fits(&fields[1]) {
                let v = fields.pop().unwrap();
                let k = fields.pop().unwrap();
                proof {
                    assert(k@ == fs[0]);
                    assert(v@ == fs[1]);
                    assert(fields_of(Mutation::Put(k@, v@)) =~= fs);
                }
                Some((KvCommand::Put(k, v), n))
            } else if tag == REMOVE_TAG && fields.len() == 1 && field_fits(&fields[0]) {
                let k = fields.pop().unwrap();
                proof {
                    assert(k@ == fs[0]);
                    assert(fields_of(Mutation::Delete(k@)) =~= fs);
                }
                Some((KvCommand::Rm(k), n))
            } else {
                proof {
                    if fields_fit(fs) && (tag == SET_TAG && fs.len() == 2 || tag == REMOVE_TAG && fs.len() == 1) {
                        assert(fs[0].len() < FIELD_LIMIT);
                        if fs.len() == 2 {
                            assert(fs[1].len() < FIELD_LIMIT);
                        }
                    }
                }
                None
            }
        },
        Err(_) => None,
    }
}

/// Whether a string is within the bound on fields.
fn field_fits(s: &String) -> (r: bool)
    ensures
        r == (s@.len() < FIELD_LIMIT),
{
    s.as_str().unicode_len() < FIELD_LIMIT
}

/// The bytes of a record in the log; `None` exactly where a field is over
/// the bound. No proper prefix of the bytes reads as a record.
pub fn encode_record(c: &KvCommand) -> (r: Option<Vec<u8>>)
    ensures
        r is Some <==> mutation_fits(c@),
        r matches Some(b) ==> {
            &&& b@ == encoding(c@)
            &&& b@.len() > 0
            &&& holds_record(b@, c@)
            &&& forall|j: int| 0 <= j < b@.len() ==> #[trigger] record_at(b@.subrange(0, j)) is None
        },
{
    let (tag, fields) = match c {
        KvCommand::Put(k, v) => {
            if !field_fits(k) || !field_fits(v) {
                proof {
                    let fs = fields_of(c@);
                    assert(fs[0] == k@ && fs[1] == v@);
                }
                return None;
            }
            (SET_TAG, vec![k.clone(), v.clone()])
        },
        KvCommand::Rm(k) => {
            if !field_fits(k) {
                proof {
                    assert(fields_of(c@)[0] == k@);
                }
                return None;
            }
            (REMOVE_TAG, vec![k.clone()])
        },
    };
    proof {
        assert(views(fields@) =~= fields_of(c@));
    }
    match encode_pair(tag, fields) {
        Ok(b) => {
            proof {
                assert forall|j: int| 0 <= j < b@.len() implies #[trigger] record_at(b@.subrange(0, j)) is None by {
                    assert(msgpack_read(b@.subrange(0, j)) is None);
                }
            }
            Some(b)
        },
        Err(_) => None,
    }
}

} // verus!
