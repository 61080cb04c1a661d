//! Sequence records and the computations behind the simple commands: GC counts, the ranges
//! that merged records occupy, how a file is split into chunks, and the part
//! of a sequence that a region selects.

use crate::error::{RegionError, TextError};
use crate::lex_min::decode_text;
use crate::n50::{lemma_sum_prefix, sum_of};
use noodles_core::Position;
use noodles_fasta::record::Sequence;
use vstd::prelude::*;
use vstd::string::StringExecFns;
use vstd::utf8::{decode_utf8, valid_utf8};

verus! {

/// One sequence record: its name, its optional description and its symbols.
pub struct SeqRecord {
    pub name: Vec<u8>,
    pub description: Option<Vec<u8>>,
    pub sequence: Vec<u8>,
}

/// The bytes a record is reckoned to take when written: name, description and
/// sequence, and two separators, capped at the largest `usize`.
pub open spec fn record_cost(name_len: nat, description_len: nat, sequence_len: nat) -> nat {
    let total = name_len + description_len + sequence_len + 2;
    if total > usize::MAX {
        usize::MAX as nat
    } else {
        total
    }
}

impl SeqRecord {
    /// The length of the description, zero where there is none.
    pub open spec fn description_len(&self) -> nat {
        match self.description {
            Some(d) => d@.len(),
            None => 0,
        }
    }

    /// The bytes this record is reckoned to take when written.
    pub open spec fn cost(&self) -> nat {
        record_cost(self.name@.len(), self.description_len(), self.sequence@.len())
    }

    /// The bytes this record is reckoned to take when written.
    pub fn record_size(&self) -> (r: usize)
        ensures
            r == self.cost(),
            r >= 2,
    {
        let d = match &self.description {
            Some(d) => d.len(),
            None => 0,
        };
        let a = self.name.len();
        let b = self.sequence.len();
        if a > usize::MAX - 2 || d > usize::MAX - 2 - a || b > usize::MAX - 2 - a - d {
            usize::MAX
        } else {
            a + d + b + 2
        }
    }
}

/// `G` or `C`, in either case.
pub open spec fn is_gc(b: u8) -> bool {
    b == 71 || b == 67 || b == 103 || b == 99
}

/// How many symbols of `s` are `G` or `C`.
pub open spec fn gc_count_of(s: Seq<u8>) -> nat
    decreases s.len(),
{
    if s.len() == 0 {
        0
    } else {
        gc_count_of(s.drop_last()) + if is_gc(s.last()) {
            1nat
        } else {
            0nat
        }
    }
}

/// How many symbols of `sequence` are `G` or `C`, in either case; the GC
/// content is this count over the length.
pub fn gc_count(sequence: &[u8]) -> (r: usize)
    ensures
        r == gc_count_of(sequence@),
{
    let mut count: usize = 0;
    let mut i: usize = 0;
    while i < sequence.len()
        invariant
            i <= sequence@.len(),
            count == gc_count_of(sequence@.take(i as int)),
            count <= i,
        decreases sequence@.len() - i,
    {
        proof {
            assert(sequence@.take(i + 1).drop_last() =~= sequence@.take(i as int));
        }
        let b = sequence[i];
        if b == 71 || b == 67 || b == 103 || b == 99 {
            count += 1;
        }
        i += 1;
    }
    assert(sequence@.take(i as int) =~= sequence@);
    count
}

/// The positions, counted from one, that each record takes when records of
/// the given lengths are joined end to end: record `i` runs from one past the
/// lengths before it to the lengths up to and including it.
pub fn merged_ranges(lengths: &Vec<usize>) -> (r: Vec<(usize, usize)>)
    requires
        sum_of(lengths@) < usize::MAX,
    ensures
        r@.len() == lengths@.len(),
        forall|i: int|
            0 <= i < r@.len() ==> #[trigger] r@[i].0 == sum_of(lengths@.take(i)) + 1 && r@[i].1
                == sum_of(lengths@.take(i + 1)),
{
    let mut ranges: Vec<(usize, usize)> = Vec::with_capacity(lengths.len());
    let mut cum_seq_len: usize = 1;
    let mut i: usize = 0;
    while i < lengths.len()
        invariant
            i <= lengths@.len(),
            sum_of(lengths@) < usize::MAX,
            cum_seq_len == sum_of(lengths@.take(i as int)) + 1,
            ranges@.len() == i,
            forall|k: int|
                0 <= k < i ==> #[trigger] ranges@[k].0 == sum_of(lengths@.take(k)) + 1
                    && ranges@[k].1 == sum_of(lengths@.take(k + 1)),
        decreases lengths@.len() - i,
    {
        proof {
            assert(lengths@.take(i + 1).drop_last() =~= lengths@.take(i as int));
            lemma_sum_prefix(lengths@, i + 1);
        }
        let end = cum_seq_len + lengths[i] - 1;
        assert(end == sum_of(lengths@.take(i + 1)));
        ranges.push((cum_seq_len, end));
        assert(ranges@[i as int].1 == sum_of(lengths@.take(i + 1)));
        cum_seq_len = cum_seq_len + lengths[i];
        i += 1;
    }
    ranges
}

/// How many records go to each file when `nb_reads` records are split into
/// files of at most `split_number`: full files first, then one file with the
/// rest, if any.
pub fn chunk_sizes(nb_reads: usize, split_number: usize) -> (r: Vec<usize>)
    requires
        split_number > 0,
    ensures
        r@.len() == nb_reads / split_number + if nb_reads % split_number != 0 {
            1int
        } else {
            0int
        },
        forall|i: int| 0 <= i < nb_reads / split_number ==> #[trigger] r@[i] == split_number,
        nb_reads % split_number != 0 ==> r@[r@.len() - 1] == nb_reads % split_number,
{
    let chunk_number = nb_reads / split_number;
    let mut chunks: Vec<usize> = Vec::with_capacity(chunk_number);
    let mut i: usize = 0;
    while i < chunk_number
        invariant
            chunk_number == nb_reads / split_number,
            i <= chunk_number,
            chunks@.len() == i,
            forall|k: int| 0 <= k < i ==> #[trigger] chunks@[k] == split_number,
        decreases chunk_number - i,
    {
        chunks.push(split_number);
        i += 1;
    }
    if nb_reads % split_number != 0 {
        chunks.push(nb_reads % split_number);
    }
    chunks
}

/// Relies on `noodles_fasta::record::Sequence::get` with a range of
/// `noodles_core::Position`: positions count from one, `start..end` selects
/// symbols `start - 1` up to but not including `end - 1`, and there is nothing
/// where that range runs backwards or past the end. `Position::try_from`
/// refuses zero.
#[verifier::external_body]
fn sequence_range(sequence: &Vec<u8>, start: usize, end: usize) -> (r: Option<Vec<u8>>)
    ensures
        r is Some <==> (1 <= start && start <= end && end <= sequence@.len() + 1),
        r is Some ==> r->0@ == sequence@.subrange(start - 1, end - 1),
{
    match (Position::try_from(start), Position::try_from(end)) {
        (Ok(a), Ok(b)) => match Sequence::from(sequence.clone()).get(a..b) {
            Some(s) => Some(s.to_vec()),
            None => None,
        },
        _ => None,
    }
}

/// The part of `sequence` that the region `start..end` selects, positions
/// counting from one and `end` not included; fails where the region is not
/// within the sequence.
pub fn extract_subsequence(sequence: &Vec<u8>, start: usize, end: usize) -> (r: Result<
    Vec<u8>,
    RegionError,
>)
    ensures
        r is Err <==> !(1 <= start <= end && end - 1 <= sequence@.len()),
        r matches Err(e) ==> e == RegionError::SeqExtractError,
        r matches Ok(v) ==> v@ == sequence@.subrange(start - 1, end - 1),
{
    match sequence_range(sequence, start, end) {
        Some(v) => Ok(v),
        None => Err(RegionError::SeqExtractError),
    }
}

/// Whether a record of length `len` is kept by a length filter: longer than
/// `threshold`, or shorter where `less` is set.
pub fn length_selected(len: usize, threshold: usize, less: bool) -> (r: bool)
    ensures
        r == if less {
            len < threshold
        } else {
            len > threshold
        },
{
    if less {
        len < threshold
    } else {
        len > threshold
    }
}

/// Which part of a record's header to give as text.
pub enum FID {
    /// The name.
    Id,
    /// The description, empty where there is none.
    Description,
    /// The name, then the given separator, then the description.
    Both(String),
}

/// The description of a record as bytes, empty where there is none.
pub open spec fn description_bytes(record: &SeqRecord) -> Seq<u8> {
    match record.description {
        Some(d) => d@,
        None => Seq::empty(),
    }
}

/// The header text that `fid` selects, or `None` where a part it needs is not
/// valid UTF-8.
pub open spec fn id_description_of(record: &SeqRecord, fid: FID) -> Option<Seq<char>> {
    let name = record.name@;
    let desc = description_bytes(record);
    match fid {
        FID::Id => if valid_utf8(name) {
            Some(decode_utf8(name))
        } else {
            None
        },
        FID::Description => if valid_utf8(desc) {
            Some(decode_utf8(desc))
        } else {
            None
        },
        FID::Both(sep) => if valid_utf8(name) && valid_utf8(desc) {
            Some(decode_utf8(name) + sep@ + decode_utf8(desc))
        } else {
            None
        },
    }
}

/// The name, the description, or both joined by a separator, as text; fails
/// where a part that is asked for is not valid UTF-8.
pub fn fasta_id_description(record: &SeqRecord, fid: FID) -> (r: Result<String, TextError>)
    ensures
        r is Err <==> id_description_of(record, fid) is None,
        r matches Err(e) ==> e == TextError::NotUtf8,
        r matches Ok(t) ==> id_description_of(record, fid) == Some(t@),
{
    let desc: Vec<u8> = match &record.description {
        Some(d) => d.clone(),
        None => Vec::new(),
    };
    assert(desc@ == description_bytes(record));
    match fid {
        FID::Id => match decode_text(record.name.clone()) {
            Some(t) => Ok(t),
            None => Err(TextError::NotUtf8),
        },
        FID::Description => match decode_text(desc) {
            Some(t) => Ok(t),
            None => Err(TextError::NotUtf8),
        },
        FID::Both(sep) => {
            let name = match decode_text(record.name.clone()) {
                Some(t) => t,
                None => return Err(TextError::NotUtf8),
            };
            let description = match decode_text(desc) {
                Some(t) => t,
                None => return Err(TextError::NotUtf8),
            };
            let mut out = name;
            out.append(sep.as_str());
            out.append(description.as_str());
            Ok(out)
        },
    }
}

/// Whether `id` is one of `ids`.
pub fn id_listed(ids: &Vec<String>, id: &String) -> (r: bool)
    ensures
        r == exists|i: int| 0 <= i < ids@.len() && #[trigger] ids@[i]@ == id@,
{
    let mut i: usize = 0;
    while i < ids.len()
        invariant
            i <= ids@.len(),
            forall|k: int| 0 <= k < i ==> #[trigger] ids@[k]@ != id@,
        decreases ids@.len() - i,
    {
        if ids[i].eq(id) {
            return true;
        }
        i += 1;
    }
    false
}

} // verus!
