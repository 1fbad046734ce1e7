//! Cleaning of one row: the trailing cells are dropped, the rest are cleaned
//! in place.

use crate::cell::{
    clean_cell, escape_quotes, lemma_clean_is_escaped_normal, normal_form, normalize_cell,
    process_cell,
};
use vstd::math::max;
use vstd::prelude::*;

verus! {

/// How many cells of a row of `len` cells are kept when the last `drop` are
/// dropped: none if the row has no more than `drop` cells.
pub open spec fn kept(len: nat, drop: nat) -> nat {
    if drop >= len {
        0
    } else {
        (len - drop) as nat
    }
}

/// The cleaned form of a row: its first `kept` cells, each cleaned, in their
/// order.
pub open spec fn clean_row(row: Seq<Seq<char>>, drop: nat) -> Seq<Seq<char>> {
    Seq::new(kept(row.len(), drop), |i: int| clean_cell(row[i]))
}

/// The normal form of a row: its first `kept` cells, each in its normal
/// form, in their order.
pub open spec fn normal_row(row: Seq<Seq<char>>, drop: nat) -> Seq<Seq<char>> {
    Seq::new(kept(row.len(), drop), |i: int| normal_form(row[i]))
}

/// The given fields, each with its quotes doubled.
pub open spec fn escaped(fields: Seq<Seq<char>>) -> Seq<Seq<char>> {
    Seq::new(fields.len(), |i: int| escape_quotes(fields[i]))
}

/// The cleaned form of each row, in the rows' order.
pub open spec fn clean_rows(rows: Seq<Seq<Seq<char>>>, drop: nat) -> Seq<Seq<Seq<char>>> {
    Seq::new(rows.len(), |i: int| clean_row(rows[i], drop))
}

/// A cleaned row has the length of its row less the cells dropped, and none
/// where the row has no more cells than are dropped; with nothing to drop it
/// has the length of its row. Each of its cells is the cleaned form of the
/// cell at the same place in the row.
pub proof fn lemma_clean_row_shape(row: Seq<Seq<char>>, drop: nat)
    ensures
        clean_row(row, drop).len() == if drop > 0 {
            max(row.len() - drop, 0)
        } else {
            row.len() as int
        },
        forall|i: int|
            0 <= i < clean_row(row, drop).len() ==> #[trigger] clean_row(row, drop)[i]
                == clean_cell(row[i]),
{
}

/// Cleaning keeps the rows in their number and in their order: the row at
/// each place is the cleaned form of the row that stood there.
pub proof fn lemma_clean_rows_shape(rows: Seq<Seq<Seq<char>>>, drop: nat)
    ensures
        clean_rows(rows, drop).len() == rows.len(),
        forall|i: int|
            0 <= i < rows.len() ==> #[trigger] clean_rows(rows, drop)[i] == clean_row(
                rows[i],
                drop,
            ),
{
}

/// The cleaned form of a row is its normal form with the quotes of each
/// cell doubled.
pub proof fn lemma_clean_row_is_escaped_normal(row: Seq<Seq<char>>, drop: nat)
    ensures
        clean_row(row, drop) == escaped(normal_row(row, drop)),
{
    assert forall|i: int| 0 <= i < kept(row.len(), drop) implies clean_cell(row[i])
        == escape_quotes(normal_form(row[i])) by {
        lemma_clean_is_escaped_normal(row[i]);
    }
    assert(clean_row(row, drop) =~= escaped(normal_row(row, drop)));
}

/// How many of `len` cells are kept when the last `drop` are dropped.
fn kept_cells(len: usize, drop: usize) -> (keep: usize)
    ensures
        keep == kept(len as nat, drop as nat),
{
    if drop >= len {
        0
    } else {
        len - drop
    }
}

/// Drops the last `num_partitions` cells of `cells` and brings the others
/// into their normal form: as `process_row` does, but for the quotes, which
/// are left as they are.
pub fn normalize_row(cells: &Vec<String>, num_partitions: usize) -> (out: Vec<String>)
    ensures
        out.deep_view() == normal_row(cells.deep_view(), num_partitions as nat),
        out.len() == kept(cells.len() as nat, num_partitions as nat),
{
    let keep = kept_cells(cells.len(), num_partitions);
    let mut out: Vec<String> = Vec::new();
    let mut i: usize = 0;
    while i < keep
        invariant
            i <= keep <= cells.len(),
            out.len() == i,
            forall|k: int| 0 <= k < i ==> (#[trigger] out[k])@ == normal_form(cells[k]@),
        decreases keep - i,
    {
        let normal = normalize_cell(cells[i].as_str());
        out.push(normal);
        i += 1;
    }
    assert(out.deep_view() =~= normal_row(cells.deep_view(), num_partitions as nat));
    out
}

/// Drops the last `num_partitions` cells of `cells` and cleans the others.
/// A row with no more than `num_partitions` cells gives the empty row.
pub fn process_row(cells: &Vec<String>, num_partitions: usize) -> (out: Vec<String>)
    ensures
        out.deep_view() == clean_row(cells.deep_view(), num_partitions as nat),
        out.len() == kept(cells.len() as nat, num_partitions as nat),
{
    let keep = kept_cells(cells.len(), num_partitions);
    let mut out: Vec<String> = Vec::new();
    let mut i: usize = 0;
    while i < keep
        invariant
            i <= keep <= cells.len(),
            out.len() == i,
            forall|k: int| 0 <= k < i ==> (#[trigger] out[k])@ == clean_cell(cells[k]@),
        decreases keep - i,
    {
        let cleaned = process_cell(cells[i].as_str());
        out.push(cleaned);
        i += 1;
    }
    assert(out.deep_view() =~= clean_row(cells.deep_view(), num_partitions as nat));
    out
}

} // verus!
