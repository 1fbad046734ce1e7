//! The rewrite of a whole input: every record is read, cleaned and written
//! back quoted, in the order of the input.

use crate::codec::{
    encode_row, lemma_quoted_is_wrapped, lemma_wrapped_lines_len, open_reader, read_row,
    records_of, unread, wrapped_line, wrapped_lines,
};
use crate::row::{
    clean_row, clean_rows, lemma_clean_row_is_escaped_normal, normal_row, normalize_row,
};
use vstd::prelude::*;

verus! {

/// The record at this position of the input, counted from 0, is malformed:
/// the parser rejected it.
#[derive(Debug, Clone, Copy, PartialEq, Eq, Structural)]
pub struct MalformedRecord {
    pub record: usize,
}

/// Whether the parser accepted every record.
pub open spec fn all_accepted(records: Seq<Option<Seq<Seq<char>>>>) -> bool {
    forall|i: int| 0 <= i < records.len() ==> (#[trigger] records[i]) is Some
}

/// Whether `at` is the position of the first record that the parser
/// rejected.
pub open spec fn first_rejected(records: Seq<Option<Seq<Seq<char>>>>, at: int) -> bool {
    &&& 0 <= at < records.len()
    &&& records[at] is None
    &&& forall|i: int| 0 <= i < at ==> (#[trigger] records[i]) is Some
}

/// The rows of records that the parser accepted, in the records' order.
pub open spec fn rows_of(records: Seq<Option<Seq<Seq<char>>>>) -> Seq<Seq<Seq<char>>> {
    Seq::new(records.len(), |i: int| records[i]->0)
}

/// The output for the given rows: each row cleaned, and each cleaned cell
/// put between two quotes as it stands.
pub open spec fn rewritten(rows: Seq<Seq<Seq<char>>>, drop: nat) -> Seq<u8> {
    wrapped_lines(clean_rows(rows, drop))
}

/// Cleans one row and writes it: the last `num_partitions` cells are
/// dropped, and the line returned holds, between two quotes each, the
/// cleaned form of the others. The cells go to the writer in their normal
/// form, so that the doubling of their quotes is the writer's and is done
/// once.
pub fn cut_row(cells: &Vec<String>, num_partitions: usize) -> (line: Vec<u8>)
    ensures
        line@ == wrapped_line(clean_row(cells.deep_view(), num_partitions as nat)),
{
    let normal = normalize_row(cells, num_partitions);
    proof {
        lemma_quoted_is_wrapped(normal_row(cells.deep_view(), num_partitions as nat));
        lemma_clean_row_is_escaped_normal(cells.deep_view(), num_partitions as nat);
    }
    encode_row(&normal)
}

/// The output grows row by row: that of a run of rows and one more row is
/// the output of the run followed by the line of that row, cleaned.
pub proof fn lemma_rewritten_push(rows: Seq<Seq<Seq<char>>>, row: Seq<Seq<char>>, drop: nat)
    ensures
        rewritten(rows.push(row), drop) == rewritten(rows, drop) + wrapped_line(
            clean_row(row, drop),
        ),
{
    let cleaned = clean_rows(rows.push(row), drop);
    assert(cleaned.drop_last() =~= clean_rows(rows, drop));
    assert(cleaned.last() == clean_row(row, drop));
}

/// The output has one line for each record, in the records' order: the line
/// at each place is that of the record at the same place, cleaned. No row is
/// added, left out or moved.
pub proof fn lemma_rows_keep_their_place(records: Seq<Option<Seq<Seq<char>>>>, drop: nat)
    ensures
        rewritten(rows_of(records), drop) == wrapped_lines(clean_rows(rows_of(records), drop)),
        clean_rows(rows_of(records), drop).len() == records.len(),
        forall|i: int|
            0 <= i < records.len() ==> #[trigger] clean_rows(rows_of(records), drop)[i]
                == clean_row(records[i]->0, drop),
{
}

/// Rewrites the comma-separated `input`: each record loses its last
/// `num_partitions` cells, has the others cleaned, and is written with every
/// cleaned cell between two quotes, in the order of the input. The rewrite succeeds exactly
/// when the parser accepts every record. Otherwise it stops at the first
/// record that the parser rejects and reports its position; nothing is
/// returned of the records before it.
pub fn csv_cut(input: &[u8], num_partitions: usize) -> (result: Result<Vec<u8>, MalformedRecord>)
    ensures
        result is Ok <==> all_accepted(records_of(input@)),
        match result {
            Ok(output) => output@ == rewritten(
                rows_of(records_of(input@)),
                num_partitions as nat,
            ),
            Err(error) => first_rejected(records_of(input@), error.record as int),
        },
{
    let ghost records = records_of(input@);
    let mut reader = open_reader(input);
    let mut output: Vec<u8> = Vec::new();
    let mut done: usize = 0;
    loop
        invariant
            records == records_of(input@),
            done <= records.len(),
            unread(reader) == records.skip(done as int),
            forall|i: int| 0 <= i < done ==> (#[trigger] records[i]) is Some,
            output@ == rewritten(rows_of(records.take(done as int)), num_partitions as nat),
        decreases unread(reader).len(),
    {
        match read_row(&mut reader) {
            Ok(Some(row)) => {
                let mut line = cut_row(&row, num_partitions);
                output.append(&mut line);
                proof {
                    let before = rows_of(records.take(done as int));
                    let after = rows_of(records.take(done + 1));
                    assert(records.skip(done as int)[0] == records[done as int]);
                    assert(after =~= before.push(row.deep_view()));
                    lemma_rewritten_push(before, row.deep_view(), num_partitions as nat);
                    assert(records.skip(done as int).drop_first() =~= records.skip(done + 1));
                    lemma_wrapped_lines_len(clean_rows(after, num_partitions as nat));
                    assert(done + 1 <= output.len());
                }
                done += 1;
            },
            Ok(None) => {
                assert(records.take(done as int) =~= records);
                return Ok(output);
            },
            Err(_) => {
                assert(records.skip(done as int)[0] == records[done as int]);
                return Err(MalformedRecord { record: done });
            },
        }
    }
}

} // verus!
