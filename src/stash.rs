//! The element stash: an append-only log of fixed-size 8-byte records.
use vstd::prelude::*;
use crate::codec::{be_bytes, be_value, lemma_bytes_round_trip, u32_to_bytes, MAX_KEY};
use crate::error::StoreError;

verus! {

/// The size of one record in bytes.
pub const ELEMENT_BYTES: usize = 8;

/// The number of records a stash can hold: every record index must fit a reference field.
pub const MAX_RECORDS: usize = 0x8000_0000;

/// The index of a record in the stash.
#[derive(Debug, Clone, Copy, PartialEq, Eq, Structural)]
pub struct ElementStoreIndex(pub u32);

impl ElementStoreIndex {
    /// The byte offset of the record in the stash file.
    pub fn to_file_position(&self) -> (r: u64)
        ensures
            r == self.0 as int * ELEMENT_BYTES,
    {
        self.0 as u64 * 8u64
    }

    /// The index of the record at a byte offset.
    pub fn from_file_position(file_position: u64) -> (r: Self)
        requires
            file_position / 8 <= u32::MAX,
        ensures
            r.0 == file_position / 8,
    {
        ElementStoreIndex((file_position / 8u64) as u32)
    }
}

/// One record: two 32-bit fields.
#[derive(Debug, Clone, Copy, PartialEq, Eq, Structural)]
pub struct Record {
    pub left: u32,
    pub right: u32,
}

/// The eight bytes of a record: both fields big-endian.
pub open spec fn record_bytes(r: Record) -> Seq<u8> {
    be_bytes(r.left) + be_bytes(r.right)
}

/// The record whose bytes start at `pos`.
pub open spec fn record_at(b: Seq<u8>, pos: int) -> Record {
    Record {
        left: be_value(b[pos], b[pos + 1], b[pos + 2], b[pos + 3]),
        right: be_value(b[pos + 4], b[pos + 5], b[pos + 6], b[pos + 7]),
    }
}

/// The bytes of a run of records.
pub open spec fn encode_records(rs: Seq<Record>) -> Seq<u8> {
    Seq::new(rs.len() * 8, |i: int| record_bytes(rs[i / 8])[i % 8])
}

/// The records of a byte string whose length is a multiple of eight.
pub open spec fn decode_records(b: Seq<u8>) -> Seq<Record> {
    Seq::new(b.len() / 8, |i: int| record_at(b, i * 8))
}

/// The eight bytes of a record.
pub fn bytes_from_element(element: &Record) -> (r: [u8; 8])
    ensures
        r@ == record_bytes(*element),
{
    let a = u32_to_bytes(element.left);
    let b = u32_to_bytes(element.right);
    let r = [a[0], a[1], a[2], a[3], b[0], b[1], b[2], b[3]];
    assert(r@ =~= record_bytes(*element));
    r
}

fn word_at(bytes: &[u8], pos: usize) -> (r: u32)
    requires
        pos + 4 <= bytes@.len(),
    ensures
        r == be_value(bytes@[pos as int], bytes@[pos + 1], bytes@[pos + 2], bytes@[pos + 3]),
{
    let w = [bytes[pos], bytes[pos + 1], bytes[pos + 2], bytes[pos + 3]];
    crate::codec::u32_from_bytes(&w)
}

proof fn lemma_div_mod8(i: int, j: int)
    requires
        0 <= i,
        0 <= j < 8,
    ensures
        (i * 8 + j) / 8 == i,
        (i * 8 + j) % 8 == j,
{
    assert((i * 8 + j) / 8 == i && (i * 8 + j) % 8 == j) by (nonlinear_arith)
        requires
            0 <= j < 8,
            0 <= i,
    ;
}

/// Decoding the bytes of records gives the records back.
pub proof fn lemma_records_round_trip(rs: Seq<Record>)
    ensures
        decode_records(encode_records(rs)) == rs,
{
    let b = encode_records(rs);
    assert(b.len() / 8 == rs.len()) by (nonlinear_arith)
        requires
            b.len() == rs.len() * 8,
    ;
    assert forall|i: int| 0 <= i < rs.len() implies #[trigger] record_at(b, i * 8) == rs[i] by {
        assert(i * 8 + 7 < rs.len() * 8) by (nonlinear_arith)
            requires
                0 <= i < rs.len(),
        ;
        lemma_div_mod8(i, 0);
        lemma_div_mod8(i, 1);
        lemma_div_mod8(i, 2);
        lemma_div_mod8(i, 3);
        lemma_div_mod8(i, 4);
        lemma_div_mod8(i, 5);
        lemma_div_mod8(i, 6);
        lemma_div_mod8(i, 7);
        lemma_bytes_round_trip(rs[i].left);
        lemma_bytes_round_trip(rs[i].right);
    }
    assert(decode_records(b) =~= rs);
}

/// The log of records. Records are only ever appended; an index once handed out stays valid.
pub struct ElementStash {
    records: Vec<Record>,
}

impl View for ElementStash {
    type V = Seq<Record>;

    closed spec fn view(&self) -> Seq<Record> {
        self.records@
    }
}

impl ElementStash {
    /// Every record index fits a reference field.
    pub open spec fn wf(&self) -> bool {
        self@.len() <= MAX_RECORDS
    }

    /// A stash without records.
    pub fn new() -> (r: Self)
        ensures
            r@ == Seq::<Record>::empty(),
            r.wf(),
    {
        ElementStash { records: Vec::new() }
    }

    /// The stash whose file holds `bytes`. A length that is not a whole number of records
    /// is a torn file; more records than the stash can address cannot be held.
    pub fn from_bytes(bytes: &[u8]) -> (r: Result<Self, StoreError>)
        ensures
            match r {
                Ok(s) => bytes@.len() % 8 == 0 && s@ == decode_records(bytes@) && s.wf(),
                Err(e) => e == StoreError::Corrupt && bytes@.len() % 8 != 0 || e == StoreError::Full
                    && bytes@.len() % 8 == 0 && bytes@.len() / 8 > MAX_RECORDS,
            },
    {
        let blen = bytes.len();
        let n = blen / 8;
        if blen % 8 != 0 {
            return Err(StoreError::Corrupt);
        }
        if n > MAX_RECORDS {
            return Err(StoreError::Full);
        }
        let mut records: Vec<Record> = Vec::new();
        let mut i: usize = 0;
        while i < n
            invariant
                blen == bytes@.len(),
                n == bytes@.len() / 8,
                bytes@.len() % 8 == 0,
                i <= n,
                records@ == decode_records(bytes@).subrange(0, i as int),
            decreases n - i,
        {
            assert(8 * i + 8 <= bytes@.len()) by (nonlinear_arith)
                requires
                    i < n,
                    n == bytes@.len() / 8,
            ;
            let left = word_at(bytes, 8 * i);
            let right = word_at(bytes, 8 * i + 4);
            records.push(Record { left, right });
            i = i + 1;
            assert(records@ =~= decode_records(bytes@).subrange(0, i as int));
        }
        assert(records@ =~= decode_records(bytes@));
        Ok(ElementStash { records })
    }

    /// The bytes of the records from index `start` on: what a file of the first `start`
    /// records lacks.
    pub fn bytes_from(&self, start: usize) -> (r: Vec<u8>)
        requires
            start <= self@.len(),
            self.wf(),
        ensures
            r@ == encode_records(self@.subrange(start as int, self@.len() as int)),
    {
        let ghost tail = self@.subrange(start as int, self@.len() as int);
        let mut out: Vec<u8> = Vec::new();
        let mut i: usize = start;
        while i < self.records.len()
            invariant
                start <= i <= self@.len(),
                self@.len() <= MAX_RECORDS,
                tail == self@.subrange(start as int, self@.len() as int),
                out@ == encode_records(self@.subrange(start as int, i as int)),
            decreases self@.len() - i,
        {
            let bytes = bytes_from_element(&self.records[i]);
            let ghost before = out@;
            let mut k: usize = 0;
            while k < 8
                invariant
                    k <= 8,
                    out@ == before + bytes@.subrange(0, k as int),
                decreases 8 - k,
            {
                out.push(bytes[k]);
                k = k + 1;
                assert(out@ =~= before + bytes@.subrange(0, k as int));
            }
            let ghost prev = self@.subrange(start as int, i as int);
            let ghost next = self@.subrange(start as int, i + 1);
            assert(next =~= prev.push(self@[i as int]));
            assert forall|j: int| 0 <= j < next.len() * 8 implies #[trigger] out@[j] == record_bytes(
                next[j / 8],
            )[j % 8] by {
                assert(prev.len() * 8 + 8 == next.len() * 8) by (nonlinear_arith)
                    requires
                        next.len() == prev.len() + 1,
                ;
                if j < prev.len() * 8 {
                    assert(j / 8 < prev.len()) by (nonlinear_arith)
                        requires
                            0 <= j < prev.len() * 8,
                    ;
                } else {
                    let t = j - prev.len() * 8;
                    assert(j / 8 == prev.len() && j % 8 == t) by (nonlinear_arith)
                        requires
                            t == j - prev.len() * 8,
                            0 <= t < 8,
                    ;
                }
            }
            assert(out@ =~= encode_records(next));
            i = i + 1;
        }
        out
    }

    /// The number of records.
    pub fn len(&self) -> (r: usize)
        ensures
            r == self@.len(),
    {
        self.records.len()
    }

    /// The record at `index`.
    pub fn read(&self, index: ElementStoreIndex) -> (r: Result<Record, StoreError>)
        ensures
            match r {
                Ok(rec) => index.0 < self@.len() && rec == self@[index.0 as int],
                Err(e) => e == StoreError::Corrupt && index.0 >= self@.len(),
            },
    {
        if (index.0 as usize) < self.records.len() {
            Ok(self.records[index.0 as usize])
        } else {
            Err(StoreError::Corrupt)
        }
    }

    /// Appends `elements` and returns the index of the first of them. All or nothing: where
    /// the stash cannot hold them all it is left as it was.
    pub fn append(&mut self, elements: &[Record]) -> (r: Result<ElementStoreIndex, StoreError>)
        requires
            old(self).wf(),
        ensures
            final(self).wf(),
            match r {
                Ok(i) => old(self)@.len() + elements@.len() <= MAX_RECORDS && i.0 == old(self)@.len()
                    && final(self)@ == old(self)@ + elements@,
                Err(e) => e == StoreError::Full && old(self)@.len() + elements@.len() > MAX_RECORDS
                    && final(self)@ == old(self)@,
            },
    {
        let start = self.records.len();
        if elements.len() > MAX_RECORDS - start {
            return Err(StoreError::Full);
        }
        let mut i: usize = 0;
        while i < elements.len()
            invariant
                start == old(self)@.len(),
                start + elements@.len() <= MAX_RECORDS,
                i <= elements@.len(),
                self@ == old(self)@ + elements@.subrange(0, i as int),
            decreases elements@.len() - i,
        {
            self.records.push(elements[i]);
            i = i + 1;
            assert(self@ =~= old(self)@ + elements@.subrange(0, i as int));
        }
        assert(elements@.subrange(0, i as int) =~= elements@);
        Ok(ElementStoreIndex(start as u32))
    }
}

} // verus!
