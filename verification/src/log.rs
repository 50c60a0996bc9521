//! The log store: an append-only sequence of fixed-width records.
//!
//! The store is byte-oriented; its one genuine algorithmic property is the
//! random-access reverse read: the record at reverse offset `k` sits in
//! the 22 bytes ending `k * 22` bytes before the end, so no scan of the
//! whole log is ever needed. Reverse offset 0 is the most recent record.

use vstd::prelude::*;
use vstd::slice::slice_subrange;
use vstd::slice::slice_to_vec;
use crate::codec::Record;
use crate::codec::DecodeError;
use crate::codec::RECORD_WIDTH;
use crate::codec::spec_decode;
use crate::codec::spec_encode;
use crate::codec::encode;
use crate::codec::decode;
use crate::codec::lemma_encode_decode_roundtrip;

verus! {

/// Why reading a record out of the log failed.
#[derive(Debug, PartialEq, Eq)]
pub enum ReadError {
    /// The log holds fewer complete records than the offset asks for.
    InsufficientData,
    /// The addressed chunk does not decode; the raw offending bytes are
    /// carried along for diagnosis.
    MalformedRecord(DecodeError, Vec<u8>),
}

/// The number of complete records the log's bytes hold, counted from the
/// end of the file.
pub open spec fn spec_num_records(s: Seq<u8>) -> int {
    s.len() as int / RECORD_WIDTH as int
}

/// The 22-byte chunk at reverse offset `k`: it ends `k * 22` bytes before
/// the end of the log.
pub open spec fn chunk_from_end(s: Seq<u8>, k: int) -> Seq<u8> {
    s.subrange(s.len() - (k + 1) * RECORD_WIDTH as int, s.len() - k * RECORD_WIDTH as int)
}

/// The byte image of a sequence of records, in append order.
pub open spec fn encoding_of(recs: Seq<Record>) -> Seq<u8>
    decreases recs.len(),
{
    if recs.len() == 0 {
        Seq::empty()
    } else {
        encoding_of(recs.drop_last()) + spec_encode(recs.last())
    }
}

pub proof fn lemma_encoding_of_len(recs: Seq<Record>)
    ensures
        encoding_of(recs).len() == RECORD_WIDTH * recs.len(),
    decreases recs.len(),
{
    if recs.len() > 0 {
        lemma_encoding_of_len(recs.drop_last());
    }
}

/// In the byte image of records `r0 .. rn` in append order, the chunk at
/// reverse offset `k` is exactly the encoding of record `n - k`.
pub proof fn lemma_chunk_of_encoding(recs: Seq<Record>, k: int)
    requires
        0 <= k < recs.len(),
    ensures
        chunk_from_end(encoding_of(recs), k) == spec_encode(recs[recs.len() - 1 - k]),
    decreases k,
{
    let s = encoding_of(recs);
    let prefix = encoding_of(recs.drop_last());
    lemma_encoding_of_len(recs);
    lemma_encoding_of_len(recs.drop_last());
    if k == 0 {
        assert(chunk_from_end(s, 0) =~= spec_encode(recs.last()));
    } else {
        lemma_chunk_of_encoding(recs.drop_last(), k - 1);
        assert(chunk_from_end(s, k) =~= chunk_from_end(prefix, k - 1));
        assert(recs.drop_last()[recs.drop_last().len() - 1 - (k - 1)] == recs[recs.len() - 1 - k]);
    }
}

/// Reverse-read correctness: over the byte image of valid records
/// `r0 .. rn` in append order, reverse offset `k` addresses a chunk that
/// decodes to record `n - k` whenever `k <= n`, and any larger offset
/// asks for more bytes than the log holds.
pub proof fn lemma_reverse_read(recs: Seq<Record>, k: int)
    requires
        forall|i: int| 0 <= i < recs.len() ==> #[trigger] recs[i].valid(),
        0 <= k,
    ensures
        k < recs.len() ==> {
            let s = encoding_of(recs);
            &&& (k + 1) * RECORD_WIDTH <= s.len()
            &&& spec_decode(chunk_from_end(s, k)) == Ok::<Record, DecodeError>(
                recs[recs.len() - 1 - k],
            )
        },
        k >= recs.len() ==> (k + 1) * RECORD_WIDTH > encoding_of(recs).len(),
{
    lemma_encoding_of_len(recs);
    if k < recs.len() {
        lemma_chunk_of_encoding(recs, k);
        lemma_encode_decode_roundtrip(recs[recs.len() - 1 - k]);
        assert((k + 1) * RECORD_WIDTH <= recs.len() * RECORD_WIDTH) by (nonlinear_arith)
            requires k < recs.len();
        assert(recs.len() * RECORD_WIDTH == RECORD_WIDTH * recs.len()) by (nonlinear_arith);
    } else {
        assert((k + 1) * RECORD_WIDTH > RECORD_WIDTH * recs.len()) by (nonlinear_arith)
            requires k >= recs.len() >= 0;
    }
}

/// The append-only log. The bytes are the whole durable state: no header,
/// no index, records packed end to end.
pub struct Log {
    bytes: Vec<u8>,
}

impl View for Log {
    type V = Seq<u8>;

    closed spec fn view(&self) -> Seq<u8> {
        self.bytes@
    }
}

impl Log {
    /// An empty log.
    pub fn new() -> (l: Log)
        ensures
            l@ == Seq::<u8>::empty(),
    {
        Log { bytes: Vec::new() }
    }

    /// A log over the given bytes, taken as they stand.
    pub fn from_bytes(bytes: Vec<u8>) -> (l: Log)
        ensures
            l@ == bytes@,
    {
        Log { bytes }
    }

    /// The log's bytes.
    pub fn as_bytes(&self) -> (b: &Vec<u8>)
        ensures
            b@ == self@,
    {
        &self.bytes
    }

    /// The log's length in bytes.
    pub fn byte_len(&self) -> (n: usize)
        ensures
            n == self@.len(),
    {
        self.bytes.len()
    }

    /// The number of complete records the log holds.
    pub fn num_records(&self) -> (n: usize)
        ensures
            n == spec_num_records(self@),
    {
        self.bytes.len() / RECORD_WIDTH
    }

    /// Append one record: the log grows by exactly its 22-byte encoding
    /// and no existing byte changes.
    pub fn append(&mut self, r: &Record)
        requires
            r.valid(),
            old(self)@.len() + RECORD_WIDTH <= usize::MAX,
        ensures
            final(self)@ == old(self)@ + spec_encode(*r),
    {
        let mut enc = encode(r);
        self.bytes.append(&mut enc);
    }

    /// Read the record at reverse offset `k`: 0 is the most recent, 1 the
    /// one before it. Fails with `InsufficientData` when the log holds no
    /// complete record that far back, and with `MalformedRecord` when the
    /// addressed bytes do not decode.
    pub fn read_from_end(&self, k: u64) -> (r: Result<Record, ReadError>)
        ensures
            ({
                let s = self@;
                let w = RECORD_WIDTH as int;
                if (k + 1) * w > s.len() {
                    r == Err::<Record, ReadError>(ReadError::InsufficientData)
                } else {
                    match spec_decode(chunk_from_end(s, k as int)) {
                        Ok(rec) => r == Ok::<Record, ReadError>(rec),
                        Err(e) => r matches Err(ReadError::MalformedRecord(e2, b)) && e2 == e
                            && b@ == chunk_from_end(s, k as int),
                    }
                }
            }),
    {
        let len = self.bytes.len();
        let n_records = len / RECORD_WIDTH;
        proof {
            assert(RECORD_WIDTH * spec_num_records(self@) <= len < RECORD_WIDTH * (
            spec_num_records(self@) + 1)) by (nonlinear_arith)
                requires spec_num_records(self@) == len as int / RECORD_WIDTH as int, len
                    >= 0;
        }
        if k >= n_records as u64 {
            proof {
                assert((k + 1) * RECORD_WIDTH > self@.len()) by (nonlinear_arith)
                    requires
                        k >= spec_num_records(self@),
                        RECORD_WIDTH * spec_num_records(self@) <= self@.len() < RECORD_WIDTH * (
                        spec_num_records(self@) + 1);
            }
            return Err(ReadError::InsufficientData);
        }
        proof {
            assert((k + 1) * RECORD_WIDTH <= self@.len()) by (nonlinear_arith)
                requires
                    k < spec_num_records(self@),
                    RECORD_WIDTH * spec_num_records(self@) <= self@.len();
        }
        let ku = k as usize;
        let start = len - (ku + 1) * RECORD_WIDTH;
        let end = len - ku * RECORD_WIDTH;
        let chunk = slice_subrange(self.bytes.as_slice(), start, end);
        match decode(chunk) {
            Ok(rec) => Ok(rec),
            Err(e) => Err(ReadError::MalformedRecord(e, slice_to_vec(chunk))),
        }
    }
}

} // verus!
