//! The comma-separated format, read and written by the `csv` crate.
//!
//! Reading is lenient: no header row, rows of any length. Writing is strict:
//! every field is put in quotes, and the writer doubles the quotes that it
//! finds inside a field. What the crate does is taken on trust here, item by
//! item, each with the function it speaks of. What is proved here is that
//! the bytes so written are the field's text with its quotes doubled, put
//! between two quotes.

use crate::cell::{escape_char, escape_quotes};
use crate::row::escaped;
use vstd::pervasive::unreached;
use vstd::prelude::*;
use vstd::utf8::{encode_scalar, encode_utf8};

verus! {

/// The byte of the double quote.
pub const QUOTE: u8 = 0x22;

/// The byte that parts two fields.
pub const COMMA: u8 = 0x2C;

/// The byte that ends a row.
pub const NEWLINE: u8 = 0x0A;

/// `csv::Reader`, a parser that hands out the records of its input one by
/// one. Its state is never looked into.
#[verifier::external_type_specification]
#[verifier::external_body]
#[verifier::reject_recursive_types(R)]
pub struct ExReader<R>(csv::Reader<R>);

/// `csv::Error`, what the parser reports on a record that it rejects.
#[verifier::external_type_specification]
#[verifier::external_body]
pub struct ExError(csv::Error);

/// What `reader` has yet to give: one entry for each record left in its
/// input, in order. An entry is the record's fields, or `None` where the
/// parser rejects the record.
pub uninterp spec fn unread(reader: csv::Reader<&[u8]>) -> Seq<Option<Seq<Seq<char>>>>;

/// The records that the parser finds in `input` when no row is taken for a
/// header and rows may differ in length: what a reader opened on `input` has
/// to give.
pub uninterp spec fn records_of(input: Seq<u8>) -> Seq<Option<Seq<Seq<char>>>>;

/// `csv::ReaderBuilder::from_reader`, with `has_headers(false)` and
/// `flexible(true)`: a reader that has all the records of `input` to give,
/// the first row among them.
#[verifier::external_body]
pub(crate) fn open_reader(input: &[u8]) -> (reader: csv::Reader<&[u8]>)
    ensures
        unread(reader) == records_of(input@),
{
    csv::ReaderBuilder::new().has_headers(false).flexible(true).from_reader(input)
}

/// `csv::Reader::records` and one `next` of the iterator it returns, which
/// is one `csv::Reader::read_record`: the reader gives its next record and
/// moves past it. With nothing left it gives `None` and stays as it is. A
/// record with invalid UTF-8 in a field is reported as an error, and the
/// reader has moved past it all the same.
#[verifier::external_body]
pub(crate) fn read_row(reader: &mut csv::Reader<&[u8]>) -> (next: Result<
    Option<Vec<String>>,
    csv::Error,
>)
    ensures
        unread(*old(reader)).len() == 0 ==> (next matches Ok(None)) && unread(*final(reader))
            == unread(*old(reader)),
        unread(*old(reader)).len() > 0 ==> {
            &&& unread(*final(reader)) == unread(*old(reader)).drop_first()
            &&& match unread(*old(reader))[0] {
                Some(fields) => next matches Ok(Some(row)) && row.deep_view() == fields,
                None => next is Err,
            }
        },
{
    let next = reader.records().next().transpose()?;
    Ok(next.map(|record| record.iter().map(String::from).collect()))
}

/// `bytes` with each quote byte doubled.
pub open spec fn double_quotes(bytes: Seq<u8>) -> Seq<u8>
    decreases bytes.len(),
{
    if bytes.len() == 0 {
        bytes
    } else if bytes.last() == QUOTE {
        double_quotes(bytes.drop_last()) + seq![QUOTE, QUOTE]
    } else {
        double_quotes(bytes.drop_last()) + seq![bytes.last()]
    }
}

/// One field as it is written: its UTF-8 bytes between two quotes, each
/// quote among them doubled.
pub open spec fn quoted_field(field: Seq<char>) -> Seq<u8> {
    seq![QUOTE] + double_quotes(encode_utf8(field)) + seq![QUOTE]
}

/// The fields of a row as they are written, with a comma between two
/// neighbours.
pub open spec fn quoted_fields(fields: Seq<Seq<char>>) -> Seq<u8>
    decreases fields.len(),
{
    if fields.len() == 0 {
        Seq::empty()
    } else if fields.len() == 1 {
        quoted_field(fields[0])
    } else {
        quoted_fields(fields.drop_last()) + seq![COMMA] + quoted_field(fields.last())
    }
}

/// A row as it is written: its quoted fields and a newline. A row without
/// fields is written as one empty quoted field.
pub open spec fn quoted_line(fields: Seq<Seq<char>>) -> Seq<u8> {
    if fields.len() == 0 {
        seq![QUOTE, QUOTE, NEWLINE]
    } else {
        quoted_fields(fields) + seq![NEWLINE]
    }
}

/// Text put between two quotes as it stands: its UTF-8 bytes, none added.
pub open spec fn wrapped_field(text: Seq<char>) -> Seq<u8> {
    seq![QUOTE] + encode_utf8(text) + seq![QUOTE]
}

/// Texts put between quotes as they stand, with a comma between two
/// neighbours.
pub open spec fn wrapped_fields(texts: Seq<Seq<char>>) -> Seq<u8>
    decreases texts.len(),
{
    if texts.len() == 0 {
        Seq::empty()
    } else if texts.len() == 1 {
        wrapped_field(texts[0])
    } else {
        wrapped_fields(texts.drop_last()) + seq![COMMA] + wrapped_field(texts.last())
    }
}

/// A line of the output: each text of the row between two quotes, as it
/// stands, and a newline. A row without texts is one empty pair of quotes.
pub open spec fn wrapped_line(texts: Seq<Seq<char>>) -> Seq<u8> {
    if texts.len() == 0 {
        seq![QUOTE, QUOTE, NEWLINE]
    } else {
        wrapped_fields(texts) + seq![NEWLINE]
    }
}

/// The lines of the given rows, one after the other.
pub open spec fn wrapped_lines(rows: Seq<Seq<Seq<char>>>) -> Seq<u8>
    decreases rows.len(),
{
    if rows.len() == 0 {
        Seq::empty()
    } else {
        wrapped_lines(rows.drop_last()) + wrapped_line(rows.last())
    }
}

/// `csv::Writer::write_record`, on a fresh writer over an empty buffer that
/// `csv::WriterBuilder::from_writer` built with `QuoteStyle::Always`, then
/// `csv::Writer::into_inner`: the bytes of the one row. The writer puts a
/// quote before and after each field, doubles the quotes inside it, parts
/// the fields by commas and ends the row with a newline; for a row without
/// fields it writes two quotes and the newline. Neither call fails here: a
/// write fails only when the sink does or when a row differs in length from
/// the first, and this sink is a `Vec<u8>` that sees one row.
#[verifier::external_body]
fn quote_row(row: &Vec<String>) -> (line: Result<Vec<u8>, csv::Error>)
    ensures
        line is Ok,
        line matches Ok(bytes) ==> bytes@ == quoted_line(row.deep_view()),
{
    let mut writer = csv::WriterBuilder::new().quote_style(csv::QuoteStyle::Always).from_writer(
        Vec::new(),
    );
    writer.write_record(row)?;
    Ok(writer.into_inner().map_err(|failed| failed.into_error())?)
}

/// The line that the writer makes of `cells`: every cell between two quotes,
/// and each quote inside a cell doubled.
pub fn encode_row(cells: &Vec<String>) -> (line: Vec<u8>)
    ensures
        line@ == quoted_line(cells.deep_view()),
{
    match quote_row(cells) {
        Ok(line) => line,
        Err(_) => unreached(),
    }
}

/// A scalar up to 0x7F is written as the one byte of its own value.
proof fn lemma_low_scalar(v: u32)
    by (bit_vector)
    requires
        v <= 0x7F,
    ensures
        ((v & 0x7F) as u8) as u32 == v,
{
}

/// The bytes of a scalar above 0x7F are all above 0x7F themselves.
proof fn lemma_high_scalar(v: u32)
    by (bit_vector)
    ensures
        (0xC0u8 | ((v >> 6) & 0x1F) as u8) >= 0x80u8,
        (0xE0u8 | ((v >> 12) & 0x0F) as u8) >= 0x80u8,
        (0xF0u8 | ((v >> 18) & 0x7) as u8) >= 0x80u8,
        (0x80u8 | (v & 0x3F) as u8) >= 0x80u8,
        (0x80u8 | ((v >> 6) & 0x3F) as u8) >= 0x80u8,
        (0x80u8 | ((v >> 12) & 0x3F) as u8) >= 0x80u8,
{
}

/// The quote is written as the quote byte, and no byte of any other
/// character is the quote byte.
pub proof fn lemma_quote_byte(c: char)
    ensures
        c == '"' ==> encode_scalar(c as u32) == seq![QUOTE],
        c != '"' ==> forall|i: int|
            0 <= i < encode_scalar(c as u32).len() ==> #[trigger] encode_scalar(c as u32)[i]
                != QUOTE,
{
    let v = c as u32;
    if v <= 0x7F {
        lemma_low_scalar(v);
        assert(encode_scalar(v) =~= seq![v as u8]);
    } else {
        lemma_high_scalar(v);
    }
}

/// Bytes among which there is no quote are left as they are.
proof fn lemma_double_without_quotes(bytes: Seq<u8>)
    requires
        forall|i: int| 0 <= i < bytes.len() ==> #[trigger] bytes[i] != QUOTE,
    ensures
        double_quotes(bytes) == bytes,
    decreases bytes.len(),
{
    if bytes.len() > 0 {
        assert(bytes.last() == bytes[bytes.len() - 1]);
        assert forall|i: int| 0 <= i < bytes.drop_last().len() implies #[trigger] bytes.drop_last()[i]
            != QUOTE by {
            assert(bytes.drop_last()[i] == bytes[i]);
        }
        lemma_double_without_quotes(bytes.drop_last());
        assert(bytes.drop_last() + seq![bytes.last()] =~= bytes);
    }
}

/// Doubling the quote bytes works byte by byte.
proof fn lemma_double_quotes_concat(first: Seq<u8>, second: Seq<u8>)
    ensures
        double_quotes(first + second) == double_quotes(first) + double_quotes(second),
    decreases second.len(),
{
    if second.len() == 0 {
        assert(first + second =~= first);
        assert(double_quotes(first) + double_quotes(second) =~= double_quotes(first));
    } else {
        assert((first + second).drop_last() =~= first + second.drop_last());
        assert((first + second).last() == second.last());
        lemma_double_quotes_concat(first, second.drop_last());
        assert(double_quotes(first + second) =~= double_quotes(first) + double_quotes(second));
    }
}

/// The bytes of two joined texts are the bytes of the first followed by
/// those of the second.
proof fn lemma_encode_concat(first: Seq<char>, second: Seq<char>)
    ensures
        encode_utf8(first + second) == encode_utf8(first) + encode_utf8(second),
    decreases first.len(),
{
    if first.len() == 0 {
        assert(first + second =~= second);
        assert(encode_utf8(first) + encode_utf8(second) =~= encode_utf8(second));
    } else {
        assert((first + second)[0] == first[0]);
        assert((first + second).drop_first() =~= first.drop_first() + second);
        lemma_encode_concat(first.drop_first(), second);
        assert(encode_utf8(first + second) =~= encode_utf8(first) + encode_utf8(second));
    }
}

/// The bytes of a text of one character are the bytes of that character.
proof fn lemma_encode_one(c: char)
    ensures
        encode_utf8(seq![c]) == encode_scalar(c as u32),
{
    assert(seq![c].drop_first() =~= Seq::<char>::empty());
    assert(encode_utf8(Seq::<char>::empty()) =~= Seq::<u8>::empty());
    assert(encode_utf8(seq![c]) =~= encode_scalar(c as u32));
}

/// Doubling the quote bytes of a text's bytes gives the bytes of the text
/// with its quotes doubled: the writer's escape and the cell's are one.
pub proof fn lemma_doubled_bytes(text: Seq<char>)
    ensures
        double_quotes(encode_utf8(text)) == encode_utf8(escape_quotes(text)),
    decreases text.len(),
{
    if text.len() == 0 {
        assert(encode_utf8(text) =~= Seq::<u8>::empty());
    } else {
        let front = text.drop_last();
        let c = text.last();
        assert(text =~= front + seq![c]);
        lemma_doubled_bytes(front);
        lemma_encode_one(c);
        lemma_encode_concat(front, seq![c]);
        lemma_double_quotes_concat(encode_utf8(front), encode_scalar(c as u32));
        lemma_encode_concat(escape_quotes(front), escape_char(c));
        lemma_quote_byte(c);
        if c == '"' {
            lemma_encode_one('"');
            lemma_encode_concat(seq!['"'], seq!['"']);
            assert(seq!['"', '"'] =~= seq!['"'] + seq!['"']);
            assert(double_quotes(Seq::<u8>::empty()) == Seq::<u8>::empty());
            assert(seq![QUOTE].drop_last() =~= Seq::<u8>::empty());
            assert(double_quotes(seq![QUOTE]) =~= seq![QUOTE, QUOTE]);
            assert(encode_utf8(escape_char(c)) =~= seq![QUOTE, QUOTE]);
        } else {
            lemma_double_without_quotes(encode_scalar(c as u32));
        }
    }
}

/// What the writer makes of a row is the row's texts, each with its quotes
/// doubled, put between quotes as they then stand.
pub proof fn lemma_quoted_is_wrapped(fields: Seq<Seq<char>>)
    ensures
        quoted_fields(fields) == wrapped_fields(escaped(fields)),
        quoted_line(fields) == wrapped_line(escaped(fields)),
    decreases fields.len(),
{
    if fields.len() > 0 {
        lemma_doubled_bytes(fields.last());
        assert(escaped(fields).last() == escape_quotes(fields.last()));
        if fields.len() == 1 {
            assert(fields[0] == fields.last());
            assert(escaped(fields)[0] == escaped(fields).last());
        } else {
            lemma_quoted_is_wrapped(fields.drop_last());
            assert(escaped(fields).drop_last() =~= escaped(fields.drop_last()));
        }
    }
}

/// Lines follow their rows: the lines of two runs of rows, one after the
/// other, are the lines of the first run followed by those of the second.
/// So there are as many lines as rows, in the rows' order.
pub proof fn lemma_wrapped_lines_concat(first: Seq<Seq<Seq<char>>>, second: Seq<Seq<Seq<char>>>)
    ensures
        wrapped_lines(first + second) == wrapped_lines(first) + wrapped_lines(second),
    decreases second.len(),
{
    if second.len() == 0 {
        assert(first + second =~= first);
        assert(wrapped_lines(first) + wrapped_lines(second) =~= wrapped_lines(first));
    } else {
        assert((first + second).drop_last() =~= first + second.drop_last());
        assert((first + second).last() == second.last());
        lemma_wrapped_lines_concat(first, second.drop_last());
        assert(wrapped_lines(first + second) =~= wrapped_lines(first) + wrapped_lines(second));
    }
}

/// The lines hold at least one byte for each row.
pub proof fn lemma_wrapped_lines_len(rows: Seq<Seq<Seq<char>>>)
    ensures
        wrapped_lines(rows).len() >= rows.len(),
    decreases rows.len(),
{
    if rows.len() > 0 {
        lemma_wrapped_lines_len(rows.drop_last());
    }
}

} // verus!
