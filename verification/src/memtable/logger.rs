//! Write-ahead-log records.
//!
//! A log record reuses the entry codec:
//!
//! ```text
//! | key length (2 bytes) | key | value length (2 bytes) | value |
//! ```
//!
//! A zero value length marks a delete of that key; a put of a value
//! stores the value.  Appending the encoded records to the log file and
//! forcing them durable is the embedding program's part.

use crate::codec::{
    decode_entry, encode_entry_into, entry_fits, spec_encode_entry, spec_parse_entry,
};
use crate::error::Error;
use vstd::prelude::*;
use vstd::slice::slice_to_vec;

verus! {

/// What a log record does to its key.
#[derive(Clone, Copy, Debug, Default, PartialEq, Eq, Structural)]
pub enum OperationType {
    #[default]
    PUT,
    DELETE,
}

/// The bytes a log record occupies: a delete is stored as an entry with
/// an empty value.
pub open spec fn spec_record_bytes(opt: OperationType, k: Seq<u8>, v: Seq<u8>) -> Seq<u8> {
    match opt {
        OperationType::PUT => spec_encode_entry(k, v),
        OperationType::DELETE => spec_encode_entry(k, Seq::empty()),
    }
}

/// One write-ahead-log record: an operation on a key.
pub struct LoggerRecord {
    pub opt_type: OperationType,
    pub key: Vec<u8>,
    pub value: Vec<u8>,
}

impl LoggerRecord {
    /// A record from its parts.
    pub fn new(opt: OperationType, key: &[u8], value: &[u8]) -> (r: LoggerRecord)
        ensures
            r.opt_type == opt,
            r.key@ == key@,
            r.value@ == value@,
    {
        LoggerRecord { opt_type: opt, key: slice_to_vec(key), value: slice_to_vec(value) }
    }

    /// Encodes the record; a delete writes a zero value length.
    pub fn encode(&self) -> (r: Vec<u8>)
        requires
            entry_fits(self.key@, self.value@),
        ensures
            r@ == spec_record_bytes(self.opt_type, self.key@, self.value@),
    {
        let mut buf: Vec<u8> = Vec::new();
        match self.opt_type {
            OperationType::PUT => {
                encode_entry_into(&mut buf, self.key.as_slice(), self.value.as_slice());
            },
            OperationType::DELETE => {
                let empty: Vec<u8> = Vec::new();
                encode_entry_into(&mut buf, self.key.as_slice(), empty.as_slice());
                proof {
                    assert(empty@ =~= Seq::<u8>::empty());
                }
            },
        }
        proof {
            assert(buf@ =~= spec_record_bytes(self.opt_type, self.key@, self.value@));
        }
        buf
    }

    /// Decodes the record at the start of `buf`: an empty value reads
    /// back as a delete.  Truncated input is a corruption.
    pub fn decode(buf: &[u8]) -> (r: Result<LoggerRecord, Error>)
        ensures
            match r {
                Ok(rec) => {
                    &&& spec_parse_entry(buf@, 0) is Some
                    &&& rec.key@ == spec_parse_entry(buf@, 0).unwrap().0.0
                    &&& rec.value@ == spec_parse_entry(buf@, 0).unwrap().0.1
                    &&& rec.opt_type == (if spec_parse_entry(buf@, 0).unwrap().0.1.len() == 0 {
                        OperationType::DELETE
                    } else {
                        OperationType::PUT
                    })
                },
                Err(e) => spec_parse_entry(buf@, 0) is None && e == Error::Corruption,
            },
    {
        match decode_entry(buf, 0) {
            Err(e) => Err(e),
            Ok((key, value, _end)) => {
                if value.len() == 0 {
                    Ok(LoggerRecord { opt_type: OperationType::DELETE, key, value })
                } else {
                    Ok(LoggerRecord { opt_type: OperationType::PUT, key, value })
                }
            },
        }
    }
}

/// Accumulates encoded log records into one byte run, ready to be
/// appended to the log file in a single write.
pub struct LogRecordsBuilder {
    data: Vec<u8>,
}

impl View for LogRecordsBuilder {
    type V = Seq<u8>;

    closed spec fn view(&self) -> Seq<u8> {
        self.data@
    }
}

impl LogRecordsBuilder {
    /// A fresh, empty builder.
    pub fn new() -> (r: LogRecordsBuilder)
        ensures
            r@ == Seq::<u8>::empty(),
    {
        let r = LogRecordsBuilder { data: Vec::new() };
        proof {
            assert(r@ =~= Seq::<u8>::empty());
        }
        r
    }

    /// Appends one record's encoding.
    pub fn add(&mut self, opt: OperationType, key: &[u8], value: &[u8]) -> (r: Result<(), Error>)
        requires
            entry_fits(key@, value@),
        ensures
            final(self)@ == old(self)@ + spec_record_bytes(opt, key@, value@),
            r is Ok,
    {
        let record = LoggerRecord::new(opt, key, value);
        let encoded = record.encode();
        self.data.extend_from_slice(encoded.as_slice());
        Ok(())
    }

    /// The accumulated bytes.
    pub fn build(&self) -> (r: &[u8])
        ensures
            r@ == self@,
    {
        self.data.as_slice()
    }

    /// Clears the builder for reuse.
    pub fn cleanup(&mut self)
        ensures
            final(self)@ == Seq::<u8>::empty(),
    {
        self.data.clear();
        proof {
            assert(self@ =~= Seq::<u8>::empty());
        }
    }
}

} // verus!
