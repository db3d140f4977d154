//! Sequence records and the length extractor.

use vstd::prelude::*;

verus! {

/// One sequence read: an identifier, a sequence of symbols, and one
/// quality value per symbol.  Only the sequence length feeds the
/// histogram; the other fields are carried for the record's own sake.
pub struct SeqRecord {
    /// The record identifier.
    pub id: Vec<u8>,
    /// The sequence payload, one byte per symbol.
    pub seq: Vec<u8>,
    /// Per-symbol quality values.
    pub qual: Vec<u8>,
}

impl SeqRecord {
    /// The record's length: the number of symbols in its sequence payload.
    pub open spec fn spec_length(self) -> nat {
        self.seq@.len()
    }

    /// Length extraction: the count of symbols in the sequence payload.
    /// Pure, never fails.
    pub fn length(&self) -> (n: usize)
        ensures
            n as nat == self.spec_length(),
    {
        self.seq.len()
    }
}

/// The sequence of record lengths, in record order.
pub open spec fn spec_lengths(rs: Seq<SeqRecord>) -> Seq<usize> {
    Seq::new(rs.len(), |i: int| rs[i].seq@.len() as usize)
}

/// Extract the length of every record, in order.
pub fn lengths_of(records: &Vec<SeqRecord>) -> (lengths: Vec<usize>)
    ensures
        lengths@.len() == records@.len(),
        forall|i: int|
            0 <= i < records@.len() ==> #[trigger] lengths@[i] as nat == records@[i].spec_length(),
{
    let mut lengths: Vec<usize> = Vec::new();
    let mut i: usize = 0;
    while i < records.len()
        invariant
            i <= records@.len(),
            lengths@.len() == i,
            forall|k: int|
                0 <= k < i ==> #[trigger] lengths@[k] as nat == records@[k].spec_length(),
        decreases records@.len() - i,
    {
        lengths.push(records[i].length());
        i = i + 1;
    }
    lengths
}

} // verus!
